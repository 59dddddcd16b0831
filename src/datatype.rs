use vstd::prelude::*;
use crate::text::str_eq;

verus! {

pub open spec fn is_digit(c: char) -> bool {
    '0' <= c && c <= '9'
}

pub open spec fn all_digits(d: Seq<char>) -> bool {
    forall|i: int| 0 <= i < d.len() ==> is_digit(d[i])
}

/// The number that a run of decimal digits denotes.
pub open spec fn digits_value(d: Seq<char>) -> int
    decreases d.len(),
{
    if d.len() == 0 {
        0
    } else {
        digits_value(d.drop_last()) * 10 + (d.last() as int - '0' as int)
    }
}

pub open spec fn is_sign(c: char) -> bool {
    c == '+' || c == '-'
}

/// `s` without a leading sign.
pub open spec fn unsigned_part(s: Seq<char>) -> Seq<char> {
    if s.len() > 0 && is_sign(s[0]) {
        s.skip(1)
    } else {
        s
    }
}

/// A signed decimal integer in the range of `i64`.
pub open spec fn is_i64_text(s: Seq<char>) -> bool {
    let d = unsigned_part(s);
    &&& d.len() > 0
    &&& all_digits(d)
    &&& if s[0] == '-' {
        digits_value(d) <= 0x8000_0000_0000_0000
    } else {
        digits_value(d) <= 0x7fff_ffff_ffff_ffff
    }
}

/// `x` equals the lower-case ASCII letter or symbol `lc`, ignoring ASCII case.
pub open spec fn ci_char(x: char, lc: char) -> bool {
    x == lc || ('A' <= x && x <= 'Z' && x as u32 + 32 == lc as u32)
}

/// `a` spells the lower-case text `lc`, ignoring ASCII case.
pub open spec fn ci_eq(a: Seq<char>, lc: Seq<char>) -> bool {
    a.len() == lc.len() && forall|i: int| 0 <= i < a.len() ==> ci_char(a[i], lc[i])
}

/// An exponent suffix of a decimal number: empty, or `e`/`E`, a sign and digits.
pub open spec fn is_exp(e: Seq<char>) -> bool {
    e.len() == 0 || ((e[0] == 'e' || e[0] == 'E') && {
        let r = unsigned_part(e.skip(1));
        r.len() > 0 && all_digits(r)
    })
}

/// Digits with at most one `.`, and at least one digit.
pub open spec fn is_mantissa(m: Seq<char>) -> bool {
    &&& exists|i: int| 0 <= i < m.len() && is_digit(m[i])
    &&& forall|i: int| 0 <= i < m.len() ==> is_digit(#[trigger] m[i]) || m[i] == '.'
    &&& forall|i: int, j: int|
        0 <= i < m.len() && 0 <= j < m.len() && m[i] == '.' && m[j] == '.' ==> i == j
}

pub open spec fn is_number(b: Seq<char>) -> bool {
    exists|k: int| 0 <= k <= b.len() && is_mantissa(b.take(k)) && is_exp(#[trigger] b.skip(k))
}

/// The texts that `f64`'s `FromStr` accepts.
pub open spec fn is_f64_text(s: Seq<char>) -> bool {
    let b = unsigned_part(s);
    ci_eq(b, "inf"@) || ci_eq(b, "infinity"@) || ci_eq(b, "nan"@) || is_number(b)
}

pub open spec fn is_bool_text(s: Seq<char>) -> bool {
    ci_eq(s, "true"@) || ci_eq(s, "false"@)
}

/// The type tags that a column can be declared with.
pub open spec fn is_type_tag(t: Seq<char>) -> bool {
    t == "int"@ || t == "float"@ || t == "string"@ || t == "bool"@
}

/// Whether the value `v` is accepted by the type tag `t`.
pub open spec fn value_matches(v: Seq<char>, t: Seq<char>) -> bool {
    if t == "int"@ {
        is_i64_text(v)
    } else if t == "float"@ {
        is_f64_text(v)
    } else if t == "bool"@ {
        is_bool_text(v)
    } else {
        t == "string"@
    }
}

/// Whether `a` spells the lower-case text `lc`, ignoring ASCII case.
pub fn eq_ignore_case(a: &str, lc: &str) -> (r: bool)
    ensures
        r == ci_eq(a@, lc@),
{
    let n = a.unicode_len();
    if n != lc.unicode_len() {
        return false;
    }
    let mut i: usize = 0;
    while i < n
        invariant
            n == a@.len(),
            n == lc@.len(),
            i <= n,
            forall|j: int| 0 <= j < i ==> ci_char(a@[j], lc@[j]),
        decreases n - i,
    {
        let x = a.get_char(i);
        let y = lc.get_char(i);
        if !(x == y || ('A' <= x && x <= 'Z' && x as u32 + 32 == y as u32)) {
            return false;
        }
        i = i + 1;
    }
    true
}

/// Index just past a leading sign of `s`.
fn sign_len(s: &str) -> (r: usize)
    ensures
        r <= s@.len(),
        s@.skip(r as int) == unsigned_part(s@),
{
    if s.unicode_len() > 0 {
        let c = s.get_char(0);
        if c == '+' || c == '-' {
            return 1;
        }
    }
    assert(s@.skip(0) =~= s@);
    0
}

proof fn lemma_digits_step(d: Seq<char>, k: int)
    requires
        0 <= k < d.len(),
    ensures
        digits_value(d.take(k + 1)) == digits_value(d.take(k)) * 10 + (d[k] as int - '0' as int),
{
    assert(d.take(k + 1).drop_last() =~= d.take(k));
}

/// Whether `s` is a signed decimal integer in the range of `i64`.
pub fn is_i64(s: &str) -> (r: bool)
    ensures
        r == is_i64_text(s@),
{
    let n = s.unicode_len();
    let st = sign_len(s);
    let ghost d = unsigned_part(s@);
    if st == n {
        return false;
    }
    let cap: u64 = 0x8000_0000_0000_0001;
    let mut acc: u64 = 0;
    let mut i: usize = st;
    proof {
        assert(d.take(0) =~= Seq::<char>::empty());
    }
    while i < n
        invariant
            n == s@.len(),
            st <= i <= n,
            d == s@.skip(st as int),
            d == unsigned_part(s@),
            cap == 0x8000_0000_0000_0001,
            forall|j: int| 0 <= j < i - st ==> is_digit(d[j]),
            acc == if digits_value(d.take(i - st)) < cap {
                digits_value(d.take(i - st))
            } else {
                cap as int
            },
        decreases n - i,
    {
        let c = s.get_char(i);
        assert(d[i - st] == s@[i as int]);
        if !('0' <= c && c <= '9') {
            assert(!is_digit(d[i - st]));
            assert(!all_digits(d));
            return false;
        }
        let dv = (c as u32 - '0' as u32) as u64;
        proof {
            lemma_digits_step(d, i - st);
        }
        let ghost v = digits_value(d.take(i - st));
        if acc >= 922337203685477581 {
            assert(v * 10 + dv >= cap) by (nonlinear_arith)
                requires
                    v >= 922337203685477581,
                    cap == 0x8000_0000_0000_0001,
                    dv >= 0,
            ;
            acc = cap;
        } else {
            assert(acc * 10 + dv < 0xffff_ffff_ffff_ffff) by (nonlinear_arith)
                requires
                    acc < 922337203685477581,
                    dv <= 9,
            ;
            let t = acc * 10 + dv;
            acc = if t >= cap {
                cap
            } else {
                t
            };
        }
        i = i + 1;
    }
    proof {
        assert(d.take(n - st) =~= d);
    }
    if s.get_char(0) == '-' {
        acc <= 0x8000_0000_0000_0000
    } else {
        acc <= 0x7fff_ffff_ffff_ffff
    }
}

/// Whether the text of `s` from `k` on is an exponent suffix.
fn exp_ok(s: &str, k: usize) -> (r: bool)
    requires
        k <= s@.len(),
    ensures
        r == is_exp(s@.skip(k as int)),
{
    let ghost e = s@.skip(k as int);
    let n = s.unicode_len();
    if k == n {
        return true;
    }
    let c = s.get_char(k);
    if !(c == 'e' || c == 'E') {
        return false;
    }
    let mut j: usize = k + 1;
    if j < n {
        let c2 = s.get_char(j);
        if c2 == '+' || c2 == '-' {
            j = j + 1;
        }
    }
    let ghost r = unsigned_part(e.skip(1));
    assert(e[0] == c);
    assert(r =~= s@.skip(j as int));
    if j == n {
        return false;
    }
    let j0 = j;
    while j < n
        invariant
            n == s@.len(),
            j0 <= j <= n,
            r == s@.skip(j0 as int),
            r == unsigned_part(e.skip(1)),
            e == s@.skip(k as int),
            k < n,
            e[0] == 'e' || e[0] == 'E',
            forall|t: int| 0 <= t < j - j0 ==> is_digit(r[t]),
        decreases n - j,
    {
        let c3 = s.get_char(j);
        assert(r[j - j0] == s@[j as int]);
        if !('0' <= c3 && c3 <= '9') {
            assert(!is_digit(r[j - j0]));
            assert(!all_digits(r));
            return false;
        }
        j = j + 1;
    }
    true
}

/// Whether the text of `s` from `st` on is a decimal number with an optional exponent.
fn is_number_text(s: &str, st: usize) -> (r: bool)
    requires
        st <= s@.len(),
    ensures
        r == is_number(s@.skip(st as int)),
{
    let ghost b = s@.skip(st as int);
    let n = s.unicode_len();
    let mut i: usize = st;
    let mut seen_digit = false;
    let mut dot_at: usize = n;
    let mut stopped = false;
    while i < n && !stopped
        invariant
            n == s@.len(),
            st <= i <= n,
            b == s@.skip(st as int),
            forall|j: int| 0 <= j < i - st ==> is_digit(#[trigger] b[j]) || b[j] == '.',
            seen_digit == (exists|j: int| 0 <= j < i - st && is_digit(b[j])),
            dot_at == n ==> forall|j: int| 0 <= j < i - st ==> b[j] != '.',
            dot_at != n ==> st <= dot_at < i && b[dot_at - st] == '.' && forall|j: int|
                0 <= j < i - st && b[j] == '.' ==> j == dot_at - st,
            stopped ==> i < n && !(is_digit(b[i - st]) || (b[i - st] == '.' && dot_at == n)),
        decreases n - i + (if stopped { 0int } else { 1 }),
    {
        let c = s.get_char(i);
        assert(b[i - st] == c);
        if '0' <= c && c <= '9' {
            seen_digit = true;
            i = i + 1;
        } else if c == '.' && dot_at == n {
            dot_at = i;
            i = i + 1;
        } else {
            stopped = true;
        }
    }
    let ghost k = i - st;
    let e = exp_ok(s, i);
    proof {
        assert(b.skip(k) =~= s@.skip(i as int));
        let m = b.take(k);
        if seen_digit && e {
            let j = choose|j: int| 0 <= j < k && is_digit(b[j]);
            assert(is_digit(m[j]));
            assert(forall|t: int| 0 <= t < m.len() ==> m[t] == b[t]);
            assert(is_mantissa(m));
            assert(is_exp(b.skip(k)));
        }
        if is_number(b) {
            let k2 = choose|k2: int|
                0 <= k2 <= b.len() && is_mantissa(b.take(k2)) && is_exp(#[trigger] b.skip(k2));
            let m2 = b.take(k2);
            if k2 < k {
                assert(b.skip(k2)[0] == b[k2]);
                assert(is_digit(b[k2]) || b[k2] == '.');
            } else if k2 > k {
                assert(m2[k] == b[k]);
                assert(is_digit(m2[k]) || m2[k] == '.');
                assert(b[k] == s@[i as int]);
                assert(m2[dot_at - st] == '.');
            } else {
                let j = choose|j: int| 0 <= j < m2.len() && is_digit(m2[j]);
                assert(m2[j] == b[j]);
            }
        }
    }
    seen_digit && e
}

/// Whether `s` is a text that parses as an `f64`.
pub fn is_f64(s: &str) -> (r: bool)
    ensures
        r == is_f64_text(s@),
{
    let st = sign_len(s);
    let b = s.substring_char(st, s.unicode_len());
    assert(b@ =~= unsigned_part(s@));
    eq_ignore_case(b, "inf") || eq_ignore_case(b, "infinity") || eq_ignore_case(b, "nan")
        || is_number_text(s, st)
}

/// Whether `s` is `true` or `false` in any ASCII case.
pub fn is_bool(s: &str) -> (r: bool)
    ensures
        r == is_bool_text(s@),
{
    eq_ignore_case(s, "true") || eq_ignore_case(s, "false")
}

/// Whether `dt` is one of the type tags `int`, `float`, `string`, `bool`.
pub fn valid_datatype(dt: &str) -> (r: bool)
    ensures
        r == is_type_tag(dt@),
{
    str_eq(dt, "int") || str_eq(dt, "float") || str_eq(dt, "string") || str_eq(dt, "bool")
}

/// Whether `value` is accepted by the type tag `dtype`.
pub fn check_value_matches(value: &str, dtype: &str) -> (r: bool)
    ensures
        r == value_matches(value@, dtype@),
{
    if str_eq(dtype, "int") {
        is_i64(value)
    } else if str_eq(dtype, "float") {
        is_f64(value)
    } else if str_eq(dtype, "bool") {
        is_bool(value)
    } else {
        str_eq(dtype, "string")
    }
}

} // verus!
