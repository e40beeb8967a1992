//! Character, byte-length and decimal helpers on strings, stated over `Seq<char>`.
use vstd::prelude::*;
use vstd::std_specs::iter::IteratorSpec;

verus! {

/// `String::push` appends one character to the string.
pub assume_specification[ String::push ](s: &mut String, ch: char)
    ensures
        final(s)@ == old(s)@.push(ch),
;

/// `String::push_str` appends the characters of `string` to the string.
pub assume_specification[ String::push_str ](s: &mut String, string: &str)
    ensures
        final(s)@ == old(s)@ + string@,
;

/// Number of bytes of the UTF-8 encoding of `c` (what `char::len_utf8` returns).
pub open spec fn char_width(c: char) -> nat {
    if (c as u32) < 0x80 {
        1
    } else if (c as u32) < 0x800 {
        2
    } else if (c as u32) < 0x10000 {
        3
    } else {
        4
    }
}

/// Number of bytes of the UTF-8 encoding of `s` (what `str::len` returns).
pub open spec fn byte_len(s: Seq<char>) -> nat
    decreases s.len(),
{
    if s.len() == 0 {
        0
    } else {
        byte_len(s.drop_last()) + char_width(s.last())
    }
}

pub proof fn lemma_byte_len_push(s: Seq<char>, c: char)
    ensures
        byte_len(s.push(c)) == byte_len(s) + char_width(c),
{
    assert(s.push(c).drop_last() =~= s);
}

pub proof fn lemma_byte_len_concat(a: Seq<char>, b: Seq<char>)
    ensures
        byte_len(a + b) == byte_len(a) + byte_len(b),
    decreases b.len(),
{
    if b.len() == 0 {
        assert(a + b =~= a);
    } else {
        assert((a + b).drop_last() =~= a + b.drop_last());
        lemma_byte_len_concat(a, b.drop_last());
    }
}

/// Byte length grows with the number of characters taken.
pub proof fn lemma_byte_len_take_mono(s: Seq<char>, i: int, j: int)
    requires
        0 <= i <= j <= s.len(),
    ensures
        byte_len(s.take(i)) <= byte_len(s.take(j)),
        byte_len(s.take(i)) + (j - i) <= byte_len(s.take(j)),
    decreases j - i,
{
    if i < j {
        lemma_byte_len_take_mono(s, i, j - 1);
        assert(s.take(j).drop_last() =~= s.take(j - 1));
    }
}

/// `byte_len` is the length of vstd's UTF-8 encoding of the characters.
pub proof fn lemma_byte_len_encode(s: Seq<char>)
    ensures
        byte_len(s) == vstd::utf8::encode_utf8(s).len(),
    decreases s.len(),
{
    if s.len() > 0 {
        let c = s[0];
        lemma_byte_len_encode(s.drop_first());
        assert(s =~= seq![c] + s.drop_first());
        lemma_byte_len_concat(seq![c], s.drop_first());
        assert(seq![c].drop_last() =~= Seq::<char>::empty());
        assert(seq![c].last() == c);
        assert(byte_len(Seq::<char>::empty()) == 0);
        assert(byte_len(seq![c]) == char_width(c));
        vstd::utf8::char_is_scalar(c);
        assert(vstd::utf8::encode_utf8(s) == vstd::utf8::encode_scalar(c as u32)
            + vstd::utf8::encode_utf8(s.drop_first()));
        assert(vstd::utf8::encode_scalar(c as u32).len() == char_width(c));
    }
}

/// Byte length of a string slice (`str::len`, which vstd states modulo the
/// machine word).
pub fn byte_len_of(s: &str) -> (n: usize)
    ensures
        n == byte_len(s@) as usize,
{
    proof {
        lemma_byte_len_encode(s@);
    }
    s.len()
}

/// A function that takes distinct values on `lo..hi`, all of them in `s`, has at
/// most `s.len()` arguments there.
pub proof fn lemma_injective_count<T>(f: spec_fn(nat) -> T, s: Seq<T>, lo: nat, hi: nat)
    requires
        lo <= hi,
        forall|j: nat| lo <= j < hi ==> s.contains(#[trigger] f(j)),
        forall|i: nat, j: nat| lo <= i < hi && lo <= j < hi && #[trigger] f(i) == #[trigger] f(j) ==> i == j,
    ensures
        hi - lo <= s.len(),
{
    lemma_image_len(f, lo, hi);
    assert(image_of(f, lo, hi).subset_of(s.to_set())) by {
        lemma_image_members(f, lo, hi);
    }
    vstd::seq_lib::seq_to_set_is_finite(s);
    vstd::set_lib::lemma_len_subset(image_of(f, lo, hi), s.to_set());
    s.lemma_cardinality_of_set();
}

pub open spec fn image_of<T>(f: spec_fn(nat) -> T, lo: nat, hi: nat) -> Set<T>
    decreases hi,
{
    if hi <= lo {
        Set::empty()
    } else {
        image_of(f, lo, (hi - 1) as nat).insert(f((hi - 1) as nat))
    }
}

proof fn lemma_image_members<T>(f: spec_fn(nat) -> T, lo: nat, hi: nat)
    ensures
        forall|t: T| #[trigger] image_of(f, lo, hi).contains(t) ==> exists|j: nat| lo <= j < hi && #[trigger] f(j) == t,
    decreases hi,
{
    if hi > lo {
        lemma_image_members(f, lo, (hi - 1) as nat);
        assert forall|t: T| #[trigger] image_of(f, lo, hi).contains(t) implies exists|j: nat|
            lo <= j < hi && #[trigger] f(j) == t by {
            if t != f((hi - 1) as nat) {
                assert(image_of(f, lo, (hi - 1) as nat).contains(t));
            }
        }
    }
}

proof fn lemma_image_len<T>(f: spec_fn(nat) -> T, lo: nat, hi: nat)
    requires
        lo <= hi,
        forall|i: nat, j: nat| lo <= i < hi && lo <= j < hi && #[trigger] f(i) == #[trigger] f(j) ==> i == j,
    ensures
        image_of(f, lo, hi).finite(),
        image_of(f, lo, hi).len() == hi - lo,
    decreases hi,
{
    if hi > lo {
        let h1 = (hi - 1) as nat;
        lemma_image_len(f, lo, h1);
        lemma_image_members(f, lo, h1);
        if image_of(f, lo, h1).contains(f(h1)) {
            let j = choose|j: nat| lo <= j < h1 && #[trigger] f(j) == f(h1);
            assert(f(j) == f(h1));
        }
    }
}

/// The longest prefix of `s` whose UTF-8 encoding takes at most `max` bytes.
pub open spec fn keep_within(s: Seq<char>, max: nat) -> Seq<char>
    decreases s.len(),
{
    if byte_len(s) <= max || s.len() == 0 {
        s
    } else {
        keep_within(s.drop_last(), max)
    }
}

/// `keep_within` is the prefix of `k` characters exactly when `k` characters fit
/// in `max` bytes and one more would not.
pub proof fn lemma_keep_within_take(s: Seq<char>, max: nat, k: int)
    requires
        0 <= k <= s.len(),
        byte_len(s.take(k)) <= max,
        k == s.len() || byte_len(s.take(k + 1)) > max,
    ensures
        keep_within(s, max) == s.take(k),
    decreases s.len(),
{
    if byte_len(s) <= max {
        if k < s.len() {
            lemma_byte_len_take_mono(s, k + 1, s.len() as int);
            assert(s.take(s.len() as int) =~= s);
        }
        assert(s.take(k) =~= s);
    } else {
        if k == s.len() {
            assert(s.take(k) =~= s);
        }
        let t = s.drop_last();
        assert(t.take(k) =~= s.take(k));
        if k < t.len() {
            assert(t.take(k + 1) =~= s.take(k + 1));
        }
        lemma_keep_within_take(t, max, k);
    }
}

pub proof fn lemma_keep_within_props(s: Seq<char>, max: nat)
    ensures
        byte_len(keep_within(s, max)) <= max,
        keep_within(s, max).len() <= s.len(),
        keep_within(s, max) =~= s.take(keep_within(s, max).len() as int),
        byte_len(s) <= max ==> keep_within(s, max) == s,
    decreases s.len(),
{
    if byte_len(s) <= max || s.len() == 0 {
        assert(s.take(s.len() as int) =~= s);
    } else {
        lemma_keep_within_props(s.drop_last(), max);
        let r = keep_within(s.drop_last(), max);
        assert(s.drop_last().take(r.len() as int) =~= s.take(r.len() as int));
    }
}

/// Number of leading characters of `cs` that fit in `max` bytes.
pub fn fit_prefix(cs: &Vec<char>, max: usize) -> (k: usize)
    ensures
        k <= cs.len(),
        byte_len(cs@.take(k as int)) <= max,
        k == cs.len() || byte_len(cs@.take(k as int + 1)) > max,
        keep_within(cs@, max as nat) == cs@.take(k as int),
{
    let mut k: usize = 0;
    let mut used: usize = 0;
    assert(cs@.take(0) =~= Seq::<char>::empty());
    while k < cs.len()
        invariant
            k <= cs.len(),
            used == byte_len(cs@.take(k as int)),
            used <= max,
        decreases cs.len() - k,
    {
        let w = char_width_of(cs[k]);
        proof {
            assert(cs@.take(k as int + 1) =~= cs@.take(k as int).push(cs@[k as int]));
            lemma_byte_len_push(cs@.take(k as int), cs@[k as int]);
        }
        if w > max - used {
            proof {
                lemma_keep_within_take(cs@, max as nat, k as int);
            }
            return k;
        }
        used = used + w;
        k = k + 1;
    }
    proof {
        lemma_keep_within_take(cs@, max as nat, k as int);
    }
    k
}

/// A string made of the first `k` characters of `cs`.
pub fn string_from_prefix(cs: &Vec<char>, k: usize) -> (r: String)
    requires
        k <= cs.len(),
    ensures
        r@ == cs@.take(k as int),
{
    let mut r = String::new();
    let mut i: usize = 0;
    while i < k
        invariant
            i <= k <= cs.len(),
            r@ == cs@.take(i as int),
        decreases k - i,
    {
        r.push(cs[i]);
        i = i + 1;
        assert(r@ =~= cs@.take(i as int));
    }
    r
}

/// The byte width of a character, computed.
pub fn char_width_of(c: char) -> (w: usize)
    ensures
        w == char_width(c),
        1 <= w <= 4,
{
    let v = c as u32;
    if v < 0x80 {
        1
    } else if v < 0x800 {
        2
    } else if v < 0x10000 {
        3
    } else {
        4
    }
}

/// The characters of a string slice, in order.
pub fn chars_of(s: &str) -> (r: Vec<char>)
    ensures
        r@ == s@,
{
    broadcast use vstd::string::axiom_spec_iter, vstd::string::next_postcondition;

    let mut chars = s.chars();
    let mut r: Vec<char> = Vec::new();
    loop
        invariant
            chars.obeys_prophetic_iter_laws(),
            r@ + chars.remaining() == s@,
        ensures
            r@ == s@,
        decreases s@.len() - r@.len(),
    {
        let ghost before = chars.remaining();
        match chars.next() {
            Some(c) => {
                r.push(c);
                assert(r@ + chars.remaining() =~= s@) by {
                    assert(before =~= seq![c] + chars.remaining());
                }
            },
            None => {
                assert(r@ =~= s@);
                break;
            },
        }
    }
    r
}

/// A string made of the given characters.
pub fn string_from_chars(cs: &[char]) -> (r: String)
    ensures
        r@ == cs@,
{
    let mut r = String::new();
    let mut i: usize = 0;
    while i < cs.len()
        invariant
            i <= cs.len(),
            r@ == cs@.take(i as int),
        decreases cs.len() - i,
    {
        r.push(cs[i]);
        i = i + 1;
        assert(r@ =~= cs@.take(i as int));
    }
    assert(cs@.take(cs.len() as int) =~= cs@);
    r
}

// ---------------------------------------------------------------------
// Decimal representation of unsigned integers.
// ---------------------------------------------------------------------

/// The ASCII digit for `d` (0..9).
pub open spec fn digit_char(d: nat) -> char {
    ((d + 48) as u32) as char
}

/// The decimal representation of `n`, without sign or leading zeros ("0" for zero).
pub open spec fn decimal(n: nat) -> Seq<char>
    decreases n,
{
    if n < 10 {
        seq![digit_char(n)]
    } else {
        decimal(n / 10).push(digit_char(n % 10))
    }
}

pub proof fn lemma_decimal_digits(n: nat)
    ensures
        decimal(n).len() >= 1,
        forall|i: int| 0 <= i < decimal(n).len() ==> '0' <= #[trigger] decimal(n)[i] <= '9',
        n >= 10 ==> decimal(n)[0] != '0',
    decreases n,
{
    if n >= 10 {
        lemma_decimal_digits(n / 10);
    }
}

pub proof fn lemma_digit_char_injective(a: nat, b: nat)
    requires
        a < 10,
        b < 10,
        digit_char(a) == digit_char(b),
    ensures
        a == b,
{
    assert(digit_char(a) as u32 == a + 48);
    assert(digit_char(b) as u32 == b + 48);
}

/// Distinct numbers have distinct decimal representations.
pub proof fn lemma_decimal_injective(a: nat, b: nat)
    requires
        decimal(a) == decimal(b),
    ensures
        a == b,
    decreases a,
{
    lemma_decimal_digits(a);
    lemma_decimal_digits(b);
    if a < 10 && b < 10 {
        assert(decimal(a)[0] == decimal(b)[0]);
        lemma_digit_char_injective(a, b);
    } else if a >= 10 && b >= 10 {
        assert(decimal(a) == decimal(a / 10).push(digit_char(a % 10)));
        assert(decimal(b) == decimal(b / 10).push(digit_char(b % 10)));
        assert(decimal(a).last() == digit_char(a % 10));
        assert(decimal(b).last() == digit_char(b % 10));
        lemma_digit_char_injective(a % 10, b % 10);
        assert(decimal(a / 10) =~= decimal(a).drop_last());
        assert(decimal(b / 10) =~= decimal(b).drop_last());
        lemma_decimal_injective(a / 10, b / 10);
        assert(a == 10 * (a / 10) + a % 10);
        assert(b == 10 * (b / 10) + b % 10);
    } else if a < 10 {
        lemma_decimal_digits(b / 10);
        assert(decimal(a).len() == 1);
        assert(decimal(b).len() >= 2);
    } else {
        lemma_decimal_digits(a / 10);
        assert(decimal(b).len() == 1);
        assert(decimal(a).len() >= 2);
    }
}

/// The ASCII digit for a value below ten.
pub fn digit_of(d: u64) -> (c: char)
    requires
        d < 10,
    ensures
        c == digit_char(d as nat),
{
    match d {
        0 => '0',
        1 => '1',
        2 => '2',
        3 => '3',
        4 => '4',
        5 => '5',
        6 => '6',
        7 => '7',
        8 => '8',
        _ => '9',
    }
}

/// Appends the decimal representation of `n` to `s`.
pub fn push_decimal(s: &mut String, n: u64)
    ensures
        final(s)@ == old(s)@ + decimal(n as nat),
{
    // Digits are produced least significant first, then emitted in reverse.
    let mut digits: Vec<char> = Vec::new();
    let mut m: u64 = n;
    while m >= 10
        invariant
            decimal(n as nat) == decimal(m as nat) + digits@.reverse(),
        decreases m,
    {
        let c = digit_of(m % 10);
        let ghost old_digits = digits@;
        digits.push(c);
        assert(digits@.reverse() =~= seq![c] + old_digits.reverse());
        assert(decimal(m as nat) =~= decimal((m / 10) as nat).push(c));
        assert(decimal((m / 10) as nat) + digits@.reverse() =~= decimal(m as nat)
            + old_digits.reverse());
        m = m / 10;
    }
    let c = digit_of(m);
    let ghost old_digits = digits@;
    digits.push(c);
    assert(digits@.reverse() =~= seq![c] + old_digits.reverse());
    assert(decimal(m as nat) =~= seq![c]);
    let ghost before = s@;
    let mut i = digits.len();
    while i > 0
        invariant
            i <= digits.len(),
            s@ == before + digits@.reverse().take((digits.len() - i) as int),
            decimal(n as nat) =~= digits@.reverse(),
        decreases i,
    {
        i = i - 1;
        s.push(digits[i]);
        assert(digits@.reverse().take((digits.len() - i) as int) =~= digits@.reverse().take(
            (digits.len() - i - 1) as int,
        ).push(digits@[i as int]));
    }
    assert(digits@.reverse().take(digits.len() as int) =~= digits@.reverse());
}

} // verus!
