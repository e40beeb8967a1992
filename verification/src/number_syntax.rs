//! The syntax that `str::parse::<f64>` accepts: an optional sign, then `inf`,
//! `infinity` or `nan` in any ASCII case, or a decimal number with an optional
//! exponent.
use vstd::prelude::*;
use crate::text::chars_of;

verus! {

pub open spec fn is_digit(c: char) -> bool {
    '0' <= c <= '9'
}

pub open spec fn is_sign(c: char) -> bool {
    c == '+' || c == '-'
}

pub open spec fn is_exp_mark(c: char) -> bool {
    c == 'e' || c == 'E'
}

pub open spec fn all_digits(s: Seq<char>) -> bool {
    forall|i: int| 0 <= i < s.len() ==> is_digit(#[trigger] s[i])
}

/// ASCII lower case of a character; other characters are unchanged.
pub open spec fn ascii_lower(c: char) -> char {
    if 'A' <= c <= 'Z' {
        ((c as u32) + 32) as char
    } else {
        c
    }
}

/// `s` equals the lower-case ASCII `word` up to ASCII case.
pub open spec fn eq_ignore_ascii_case(s: Seq<char>, word: Seq<char>) -> bool {
    &&& s.len() == word.len()
    &&& forall|i: int| 0 <= i < s.len() ==> ascii_lower(#[trigger] s[i]) == word[i]
}

pub open spec fn is_special_value(b: Seq<char>) -> bool {
    ||| eq_ignore_ascii_case(b, seq!['i', 'n', 'f'])
    ||| eq_ignore_ascii_case(b, seq!['i', 'n', 'f', 'i', 'n', 'i', 't', 'y'])
    ||| eq_ignore_ascii_case(b, seq!['n', 'a', 'n'])
}

/// `Digit+ | Digit+ '.' Digit* | Digit* '.' Digit+`
pub open spec fn is_mantissa(m: Seq<char>) -> bool {
    ||| (m.len() >= 1 && all_digits(m))
    ||| exists|d: int|
        0 <= d < m.len() && m.len() >= 2 && #[trigger] m[d] == '.' && all_digits(m.take(d))
            && all_digits(m.skip(d + 1))
}

/// `'e' Sign? Digit+`, the mark in any case.
pub open spec fn is_exponent(x: Seq<char>) -> bool {
    &&& x.len() >= 2
    &&& is_exp_mark(x[0])
    &&& if is_sign(x[1]) {
        x.len() >= 3 && all_digits(x.skip(2))
    } else {
        all_digits(x.skip(1))
    }
}

/// `Mantissa Exp?`
pub open spec fn is_number(b: Seq<char>) -> bool {
    ||| is_mantissa(b)
    ||| exists|k: int| 0 <= k < b.len() && is_mantissa(#[trigger] b.take(k)) && is_exponent(b.skip(k))
}

/// The text after an optional leading sign.
pub open spec fn unsigned_part(s: Seq<char>) -> Seq<char> {
    if s.len() > 0 && is_sign(s[0]) {
        s.drop_first()
    } else {
        s
    }
}

/// Strings that `str::parse::<f64>` accepts.
pub open spec fn is_float_literal(s: Seq<char>) -> bool {
    is_special_value(unsigned_part(s)) || is_number(unsigned_part(s))
}

fn lower_ascii(c: char) -> (r: char)
    ensures
        r == ascii_lower(c),
{
    if 'A' <= c && c <= 'Z' {
        let v = (c as u32) + 32;
        // the result is an ASCII letter
        match v {
            97 => 'a',
            98 => 'b',
            99 => 'c',
            100 => 'd',
            101 => 'e',
            102 => 'f',
            103 => 'g',
            104 => 'h',
            105 => 'i',
            106 => 'j',
            107 => 'k',
            108 => 'l',
            109 => 'm',
            110 => 'n',
            111 => 'o',
            112 => 'p',
            113 => 'q',
            114 => 'r',
            115 => 's',
            116 => 't',
            117 => 'u',
            118 => 'v',
            119 => 'w',
            120 => 'x',
            121 => 'y',
            _ => 'z',
        }
    } else {
        c
    }
}

fn digit(c: char) -> (r: bool)
    ensures
        r == is_digit(c),
{
    '0' <= c && c <= '9'
}

/// Whether `cs[start..]` equals `word` up to ASCII case.
fn matches_word(cs: &Vec<char>, start: usize, word: &Vec<char>) -> (r: bool)
    requires
        start <= cs.len(),
    ensures
        r == eq_ignore_ascii_case(cs@.skip(start as int), word@),
{
    let ghost b = cs@.skip(start as int);
    if cs.len() - start != word.len() {
        return false;
    }
    let mut i: usize = 0;
    while i < word.len()
        invariant
            b == cs@.skip(start as int),
            start <= cs.len(),
            cs.len() - start == word.len(),
            i <= word.len(),
            forall|j: int| 0 <= j < i ==> ascii_lower(#[trigger] b[j]) == word@[j],
        decreases word.len() - i,
    {
        if lower_ascii(cs[start + i]) != word[i] {
            assert(ascii_lower(b[i as int]) != word@[i as int]);
            return false;
        }
        i = i + 1;
    }
    true
}

/// Index of the first non-digit at or after `from` (or the length).
fn skip_digits(cs: &Vec<char>, from: usize) -> (j: usize)
    requires
        from <= cs.len(),
    ensures
        from <= j <= cs.len(),
        forall|i: int| from <= i < j ==> is_digit(#[trigger] cs@[i]),
        j < cs.len() ==> !is_digit(cs@[j as int]),
{
    let mut j = from;
    while j < cs.len() && digit(cs[j])
        invariant
            from <= j <= cs.len(),
            forall|i: int| from <= i < j ==> is_digit(#[trigger] cs@[i]),
        decreases cs.len() - j,
    {
        j = j + 1;
    }
    j
}

/// `b` opens with the digits `b[..p]`, then, when `b[p]` is a dot, the digits
/// `b[p + 1..q]`; otherwise `q == p`.
pub open spec fn digit_runs(b: Seq<char>, p: int, q: int) -> bool {
    &&& 0 <= p <= q <= b.len()
    &&& forall|i: int| 0 <= i < p ==> is_digit(#[trigger] b[i])
    &&& p < b.len() ==> !is_digit(b[p])
    &&& if p < b.len() && b[p] == '.' {
        &&& p < q
        &&& forall|i: int| p < i < q ==> is_digit(#[trigger] b[i])
        &&& q < b.len() ==> !is_digit(b[q])
    } else {
        q == p
    }
}

/// The only mantissa that an exponent may follow, or that may end the text, is
/// the longest run of digits with at most one dot.
proof fn lemma_mantissa_end(b: Seq<char>, p: int, q: int, k: int)
    requires
        digit_runs(b, p, q),
        0 <= k <= b.len(),
        is_mantissa(b.take(k)),
        k == b.len() || is_exp_mark(b[k]),
    ensures
        k == q,
{
    let m = b.take(k);
    if m.len() >= 1 && all_digits(m) {
        if k < p {
            assert(is_digit(b[k]));
        } else if k > p {
            assert(is_digit(m[p]));
        }
    } else {
        let d = choose|d: int|
            0 <= d < m.len() && m.len() >= 2 && #[trigger] m[d] == '.' && all_digits(m.take(d))
                && all_digits(m.skip(d + 1));
        if d < p {
            assert(is_digit(b[d]));
        } else if d > p {
            assert(m.take(d)[p] == b[p]);
            assert(is_digit(m.take(d)[p]));
        }
        assert(d == p);
        if k < q {
            assert(is_digit(b[k]));
        } else if k > q {
            assert(m.skip(d + 1)[q - d - 1] == b[q]);
            assert(is_digit(b[q]));
        }
    }
}

/// A number is the maximal mantissa, followed by nothing or by an exponent.
proof fn lemma_number_split(b: Seq<char>, p: int, q: int)
    requires
        digit_runs(b, p, q),
    ensures
        is_number(b) == (is_mantissa(b.take(q)) && (q == b.len() || is_exponent(b.skip(q)))),
{
    if is_mantissa(b) {
        assert(b.take(b.len() as int) =~= b);
        lemma_mantissa_end(b, p, q, b.len() as int);
    }
    if exists|k: int| 0 <= k < b.len() && is_mantissa(#[trigger] b.take(k)) && is_exponent(b.skip(k)) {
        let k = choose|k: int|
            0 <= k < b.len() && is_mantissa(#[trigger] b.take(k)) && is_exponent(b.skip(k));
        assert(b.skip(k)[0] == b[k]);
        lemma_mantissa_end(b, p, q, k);
    }
    if is_mantissa(b.take(q)) && q == b.len() {
        assert(b.take(q) =~= b);
    }
}

/// The maximal mantissa is one when it holds a digit.
proof fn lemma_mantissa_digits(b: Seq<char>, p: int, q: int)
    requires
        digit_runs(b, p, q),
    ensures
        is_mantissa(b.take(q)) == (p > 0 || q > p + 1),
{
    let m = b.take(q);
    if p < b.len() && b[p] == '.' {
        assert(m[p] == '.');
        assert(!all_digits(m)) by {
            assert(!is_digit(m[p]));
        }
        if p > 0 || q > p + 1 {
            assert(all_digits(m.take(p))) by {
                assert forall|i: int| 0 <= i < p implies is_digit(#[trigger] m.take(p)[i]) by {
                    assert(m.take(p)[i] == b[i]);
                }
            }
            assert(all_digits(m.skip(p + 1))) by {
                assert forall|i: int| 0 <= i < m.skip(p + 1).len() implies is_digit(
                    #[trigger] m.skip(p + 1)[i],
                ) by {
                    assert(m.skip(p + 1)[i] == b[p + 1 + i]);
                }
            }
        }
    } else {
        assert forall|i: int| 0 <= i < m.len() implies is_digit(#[trigger] m[i]) by {
            assert(m[i] == b[i]);
        }
        assert forall|d: int| 0 <= d < m.len() implies #[trigger] m[d] != '.' by {
            assert(is_digit(b[d]));
        }
    }
}

/// Whether `cs[q..]` is an exponent.
fn exponent_at(cs: &Vec<char>, q: usize) -> (r: bool)
    requires
        q < cs.len(),
    ensures
        r == is_exponent(cs@.skip(q as int)),
{
    let ghost x = cs@.skip(q as int);
    let n = cs.len();
    let mark = cs[q];
    if !(mark == 'e' || mark == 'E') {
        assert(x[0] == mark);
        return false;
    }
    let mut j = q + 1;
    let signed = j < n && (cs[j] == '+' || cs[j] == '-');
    if signed {
        j = j + 1;
    }
    let ds = j;
    let e = skip_digits(cs, j);
    let r = e > ds && e == n;
    proof {
        assert(x[0] == mark);
        if x.len() >= 2 {
            assert(x[1] == cs@[q + 1]);
        }
        let off: int = if signed {
            2
        } else {
            1
        };
        assert forall|i: int| 0 <= i < x.skip(off).len() implies #[trigger] x.skip(off)[i]
            == cs@[q + off + i] by {}
        if r {
            assert forall|i: int| 0 <= i < x.skip(off).len() implies is_digit(
                #[trigger] x.skip(off)[i],
            ) by {
                assert(x.skip(off)[i] == cs@[q + off + i]);
            }
        } else if x.len() >= 2 && (!is_sign(x[1]) || x.len() >= 3) {
            if e < n {
                assert(x.skip(off)[e - q - off] == cs@[e as int]);
            } else {
                assert(e == ds);
                if signed {
                    assert(x.len() == 2);
                } else {
                    assert(x.len() == 1);
                }
            }
        }
    }
    r
}

/// Whether `cs[start..]` is a decimal number with an optional exponent.
fn number_from(cs: &Vec<char>, start: usize) -> (r: bool)
    requires
        start <= cs.len(),
    ensures
        r == is_number(cs@.skip(start as int)),
{
    let ghost b = cs@.skip(start as int);
    let n = cs.len();
    let p = skip_digits(cs, start);
    let has_dot = p < n && cs[p] == '.';
    let q = if has_dot {
        skip_digits(cs, p + 1)
    } else {
        p
    };
    proof {
        let bp = p - start;
        let bq = q - start;
        assert forall|i: int| 0 <= i < b.len() implies #[trigger] b[i] == cs@[start + i] by {}
        assert(digit_runs(b, bp, bq));
        lemma_number_split(b, bp, bq);
        lemma_mantissa_digits(b, bp, bq);
        if q < n {
            assert(b.skip(bq) =~= cs@.skip(q as int));
        }
    }
    let has_digit = p > start || q - p > 1;
    if !has_digit {
        return false;
    }
    if q == n {
        return true;
    }
    exponent_at(cs, q)
}

/// Whether `str::parse::<f64>` succeeds on `s`.
pub fn parses_as_float(s: &str) -> (r: bool)
    ensures
        r == is_float_literal(s@),
{
    let cs = chars_of(s);
    let start: usize = if cs.len() > 0 && (cs[0] == '+' || cs[0] == '-') {
        1
    } else {
        0
    };
    assert(cs@.skip(start as int) =~= unsigned_part(s@));
    let inf = vec!['i', 'n', 'f'];
    let infinity = vec!['i', 'n', 'f', 'i', 'n', 'i', 't', 'y'];
    let nan = vec!['n', 'a', 'n'];
    if matches_word(&cs, start, &inf) || matches_word(&cs, start, &infinity) || matches_word(
        &cs,
        start,
        &nan,
    ) {
        return true;
    }
    number_from(&cs, start)
}

/// An optional sign: nothing, `+` or `-`.
pub open spec fn sign_or_none(sign: Seq<char>) -> bool {
    sign == Seq::<char>::empty() || sign == seq!['+'] || sign == seq!['-']
}

/// Every character of `d` is an ASCII digit.
pub open spec fn decimal_digits(d: Seq<char>) -> bool {
    forall|i: int| 0 <= i < d.len() ==> '0' <= #[trigger] d[i] <= '9'
}

proof fn lemma_unsigned_part(sign: Seq<char>, u: Seq<char>)
    requires
        sign_or_none(sign),
        u.len() > 0,
        u[0] != '+' && u[0] != '-',
    ensures
        unsigned_part(sign + u) == u,
{
    if sign.len() > 0 {
        assert((sign + u).drop_first() =~= u);
    } else {
        assert(sign + u =~= u);
    }
}

proof fn lemma_mantissas(a: Seq<char>, b: Seq<char>)
    requires
        decimal_digits(a),
        decimal_digits(b),
    ensures
        a.len() > 0 ==> is_mantissa(a),
        a.len() + b.len() > 0 ==> is_mantissa(a + seq!['.'] + b),
{
    assert(all_digits(a) && all_digits(b));
    let m = a + seq!['.'] + b;
    if a.len() + b.len() > 0 {
        let d = a.len() as int;
        assert(m[d] == '.');
        assert(m.take(d) =~= a);
        assert(m.skip(d + 1) =~= b);
    }
}

proof fn lemma_exponent(mark: char, esign: Seq<char>, e: Seq<char>)
    requires
        mark == 'e' || mark == 'E',
        sign_or_none(esign),
        e.len() > 0,
        decimal_digits(e),
    ensures
        is_exponent(seq![mark] + esign + e),
{
    let x = seq![mark] + esign + e;
    if esign.len() > 0 {
        assert(x.skip(2) =~= e);
    } else {
        assert(x.skip(1) =~= e);
        assert(x[1] == e[0]);
    }
}

proof fn lemma_with_exponent(m: Seq<char>, x: Seq<char>)
    requires
        is_mantissa(m),
        is_exponent(x),
    ensures
        is_number(m + x),
{
    let k = m.len() as int;
    assert((m + x).take(k) =~= m);
    assert((m + x).skip(k) =~= x);
}

/// What `str::parse::<f64>` documents as its grammar is accepted: after an
/// optional sign, digits; digits, a point and digits (either side may be
/// empty, not both); either of these followed by `e` or `E`, an optional sign
/// and digits; and `inf`, `infinity` and `nan`, in lower or upper case.
pub proof fn lemma_float_literals(
    sign: Seq<char>,
    a: Seq<char>,
    b: Seq<char>,
    mark: char,
    esign: Seq<char>,
    e: Seq<char>,
)
    requires
        sign_or_none(sign),
        decimal_digits(a),
        decimal_digits(b),
        mark == 'e' || mark == 'E',
        sign_or_none(esign),
        e.len() > 0,
        decimal_digits(e),
    ensures
        a.len() > 0 ==> is_float_literal(sign + a),
        a.len() + b.len() > 0 ==> is_float_literal(sign + a + seq!['.'] + b),
        a.len() > 0 ==> is_float_literal(sign + a + seq![mark] + esign + e),
        a.len() + b.len() > 0 ==> is_float_literal(
            sign + a + seq!['.'] + b + seq![mark] + esign + e,
        ),
        is_float_literal(sign + "inf"@),
        is_float_literal(sign + "INF"@),
        is_float_literal(sign + "infinity"@),
        is_float_literal(sign + "INFINITY"@),
        is_float_literal(sign + "nan"@),
        is_float_literal(sign + "NAN"@),
{
    lemma_integer_literals(sign, a, mark, esign, e);
    lemma_point_literals(sign, a, b, mark, esign, e);
    lemma_special_literals(sign);
}

proof fn lemma_integer_literals(sign: Seq<char>, a: Seq<char>, mark: char, esign: Seq<char>, e: Seq<char>)
    requires
        sign_or_none(sign),
        decimal_digits(a),
        mark == 'e' || mark == 'E',
        sign_or_none(esign),
        e.len() > 0,
        decimal_digits(e),
    ensures
        a.len() > 0 ==> is_float_literal(sign + a),
        a.len() > 0 ==> is_float_literal(sign + a + seq![mark] + esign + e),
{
    if a.len() > 0 {
        lemma_mantissas(a, Seq::empty());
        lemma_exponent(mark, esign, e);
        let x = seq![mark] + esign + e;
        lemma_signed_number(sign, a, x);
        assert(sign + a + seq![mark] + esign + e =~= sign + (a + x));
    }
}

proof fn lemma_point_literals(
    sign: Seq<char>,
    a: Seq<char>,
    b: Seq<char>,
    mark: char,
    esign: Seq<char>,
    e: Seq<char>,
)
    requires
        sign_or_none(sign),
        decimal_digits(a),
        decimal_digits(b),
        mark == 'e' || mark == 'E',
        sign_or_none(esign),
        e.len() > 0,
        decimal_digits(e),
    ensures
        a.len() + b.len() > 0 ==> is_float_literal(sign + a + seq!['.'] + b),
        a.len() + b.len() > 0 ==> is_float_literal(
            sign + a + seq!['.'] + b + seq![mark] + esign + e,
        ),
{
    if a.len() + b.len() > 0 {
        lemma_mantissas(a, b);
        lemma_exponent(mark, esign, e);
        let x = seq![mark] + esign + e;
        let p = a + seq!['.'] + b;
        assert(p[0] != '+' && p[0] != '-') by {
            if a.len() > 0 {
                assert(p[0] == a[0]);
            } else {
                assert(p[0] == '.');
            }
        }
        lemma_signed_number(sign, p, x);
        assert(sign + a + seq!['.'] + b =~= sign + p);
        assert(sign + a + seq!['.'] + b + seq![mark] + esign + e =~= sign + (p + x));
    }
}

proof fn lemma_signed_number(sign: Seq<char>, m: Seq<char>, x: Seq<char>)
    requires
        sign_or_none(sign),
        is_mantissa(m),
        is_exponent(x),
        m.len() > 0,
        m[0] != '+' && m[0] != '-',
    ensures
        is_float_literal(sign + m),
        is_float_literal(sign + (m + x)),
{
    lemma_unsigned_part(sign, m);
    lemma_with_exponent(m, x);
    assert((m + x)[0] == m[0]);
    lemma_unsigned_part(sign, m + x);
}

proof fn lemma_special_literals(sign: Seq<char>)
    requires
        sign_or_none(sign),
    ensures
        is_float_literal(sign + "inf"@),
        is_float_literal(sign + "INF"@),
        is_float_literal(sign + "infinity"@),
        is_float_literal(sign + "INFINITY"@),
        is_float_literal(sign + "nan"@),
        is_float_literal(sign + "NAN"@),
{
    assert(is_float_literal(sign + "inf"@)) by {
        reveal_strlit("inf");
        lemma_unsigned_part(sign, "inf"@);
        assert(eq_ignore_ascii_case("inf"@, seq!['i', 'n', 'f']));
    }
    assert(is_float_literal(sign + "INF"@)) by {
        reveal_strlit("INF");
        lemma_unsigned_part(sign, "INF"@);
        assert(eq_ignore_ascii_case("INF"@, seq!['i', 'n', 'f']));
    }
    assert(is_float_literal(sign + "infinity"@)) by {
        reveal_strlit("infinity");
        lemma_unsigned_part(sign, "infinity"@);
        assert(eq_ignore_ascii_case("infinity"@, seq!['i', 'n', 'f', 'i', 'n', 'i', 't', 'y']));
    }
    assert(is_float_literal(sign + "INFINITY"@)) by {
        reveal_strlit("INFINITY");
        lemma_unsigned_part(sign, "INFINITY"@);
        assert(eq_ignore_ascii_case("INFINITY"@, seq!['i', 'n', 'f', 'i', 'n', 'i', 't', 'y']));
    }
    assert(is_float_literal(sign + "nan"@)) by {
        reveal_strlit("nan");
        lemma_unsigned_part(sign, "nan"@);
        assert(eq_ignore_ascii_case("nan"@, seq!['n', 'a', 'n']));
    }
    assert(is_float_literal(sign + "NAN"@)) by {
        reveal_strlit("NAN");
        lemma_unsigned_part(sign, "NAN"@);
        assert(eq_ignore_ascii_case("NAN"@, seq!['n', 'a', 'n']));
    }
}

/// What the grammar accepts holds a digit, or the first letter of `inf`,
/// `infinity` or `nan` in some case: the empty string, a lone sign or point,
/// and other strings of signs, points and spaces are refused.
pub proof fn lemma_float_literal_has_digit_or_word(s: Seq<char>)
    requires
        is_float_literal(s),
    ensures
        exists|i: int|
            0 <= i < s.len() && ('0' <= #[trigger] s[i] <= '9' || s[i] == 'i' || s[i] == 'I'
                || s[i] == 'n' || s[i] == 'N'),
{
    let u = unsigned_part(s);
    let off: int = if s.len() > 0 && is_sign(s[0]) {
        1
    } else {
        0
    };
    assert forall|j: int| 0 <= j < u.len() implies u[j] == s[j + off] by {}
    if is_special_value(u) {
        assert(u.len() >= 3);
        assert(ascii_lower(u[0]) == 'i' || ascii_lower(u[0]) == 'n');
        assert(u[0] == s[off]);
        assert(s[off] == 'i' || s[off] == 'I' || s[off] == 'n' || s[off] == 'N');
    } else {
        let m = if is_mantissa(u) {
            u
        } else {
            let k = choose|k: int| 0 <= k < u.len() && is_mantissa(#[trigger] u.take(k))
                && is_exponent(u.skip(k));
            u.take(k)
        };
        assert(is_mantissa(m));
        assert forall|j: int| 0 <= j < m.len() implies m[j] == s[j + off] by {
            assert(m[j] == u[j]);
        }
        if m.len() >= 1 && all_digits(m) {
            assert(is_digit(m[0]));
            assert(s[off] == m[0]);
        } else {
            let d = choose|d: int|
                0 <= d < m.len() && m.len() >= 2 && #[trigger] m[d] == '.' && all_digits(m.take(d))
                    && all_digits(m.skip(d + 1));
            if d > 0 {
                assert(m.take(d)[0] == m[0]);
                assert(is_digit(m[0]));
                assert(s[off] == m[0]);
            } else {
                assert(m.skip(1)[0] == m[1]);
                assert(is_digit(m[1]));
                assert(s[off + 1] == m[1]);
            }
        }
    }
}

} // verus!
