//! Texts: secrets, and numbers in decimal notation.

use vstd::prelude::*;

verus! {

/// Whether two byte strings are equal, found in a time that depends on their
/// lengths alone.
pub fn constant_time_eq(left: &[u8], right: &[u8]) -> (r: bool)
    ensures
        r <==> left@ == right@,
{
    if left.len() != right.len() {
        return false;
    }
    let mut difference: u8 = 0;
    let mut i: usize = 0;
    while i < left.len()
        invariant
            i <= left@.len(),
            left@.len() == right@.len(),
            difference == 0 <==> forall|j: int| 0 <= j < i ==> left@[j] == right@[j],
        decreases left@.len() - i,
    {
        let a: u8 = left[i];
        let b: u8 = right[i];
        let d: u8 = difference;
        assert((d | (a ^ b)) == 0 <==> d == 0 && a == b) by (bit_vector);
        difference = d | (a ^ b);
        i = i + 1;
    }
    assert(difference == 0 ==> left@ =~= right@);
    difference == 0
}

/// Whether two texts are equal, found in a time that depends on their lengths
/// alone.
pub fn same_secret(left: &str, right: &str) -> (r: bool)
    ensures
        r <==> left@ == right@,
{
    let r = constant_time_eq(left.as_bytes(), right.as_bytes());
    proof {
        if r {
            crate::key::lemma_encoding_injective(left@, right@);
        }
    }
    r
}

/// The digit for a number below ten.
pub open spec fn digit(d: nat) -> char {
    (48 + d) as char
}

/// A number in decimal notation, without leading zeros.
pub open spec fn decimal(n: nat) -> Seq<char>
    decreases n,
{
    if n < 10 {
        seq![digit(n)]
    } else {
        decimal(n / 10).push(digit(n % 10))
    }
}

/// Whether a character is a decimal digit.
pub open spec fn is_digit(c: char) -> bool {
    48 <= c as int <= 57
}

/// What a row of digits stands for.
pub open spec fn digits_value(s: Seq<char>) -> nat
    decreases s.len(),
{
    if s.len() == 0 {
        0
    } else {
        digits_value(s.drop_last()) * 10 + (s.last() as int - 48) as nat
    }
}

/// Digits only, at least one, and no zero in front of others.
pub open spec fn is_canonical(s: Seq<char>) -> bool {
    &&& s.len() > 0
    &&& forall|i: int| 0 <= i < s.len() ==> is_digit(#[trigger] s[i])
    &&& s[0] as int == 48 ==> s.len() == 1
}

proof fn lemma_decimal(n: nat)
    ensures
        is_canonical(decimal(n)),
        digits_value(decimal(n)) == n,
        n > 0 ==> decimal(n)[0] as int != 48,
    decreases n,
{
    reveal_with_fuel(digits_value, 2);
    if n < 10 {
        assert(seq![digit(n)].drop_last() =~= Seq::empty());
    } else {
        lemma_decimal(n / 10);
        let front = decimal(n / 10);
        assert(decimal(n).drop_last() =~= front);
        assert(decimal(n)[0] == front[0]);
        assert forall|i: int| 0 <= i < decimal(n).len() implies is_digit(
            #[trigger] decimal(n)[i],
        ) by {
            if i < front.len() {
                assert(decimal(n)[i] == front[i]);
            }
        }
    }
}

proof fn lemma_canonical(s: Seq<char>)
    requires
        is_canonical(s),
    ensures
        decimal(digits_value(s)) == s,
        s[0] as int != 48 ==> digits_value(s) > 0,
    decreases s.len(),
{
    reveal_with_fuel(digits_value, 2);
    let d = (s.last() as int - 48) as nat;
    assert(is_digit(s[s.len() - 1]));
    if s.len() == 1 {
        assert(s.drop_last() =~= Seq::empty());
        assert(s =~= seq![digit(d)]);
    } else {
        let front = s.drop_last();
        assert(front[0] == s[0]);
        assert forall|i: int| 0 <= i < front.len() implies is_digit(#[trigger] front[i]) by {
            assert(front[i] == s[i]);
        }
        lemma_canonical(front);
        let n = digits_value(s);
        assert(n / 10 == digits_value(front));
        assert(n % 10 == d);
        assert(s =~= front.push(digit(d)));
    }
}

/// A longer row of digits stands for no less.
proof fn lemma_digits_value_prefix(s: Seq<char>, i: int)
    requires
        0 <= i <= s.len(),
    ensures
        digits_value(s.take(i)) <= digits_value(s),
    decreases s.len() - i,
{
    if i < s.len() {
        assert(s.take(i + 1).drop_last() =~= s.take(i));
        lemma_digits_value_prefix(s, i + 1);
    } else {
        assert(s.take(i) =~= s);
    }
}

/// Different numbers are written differently.
pub proof fn lemma_decimal_injective(m: nat, n: nat)
    requires
        decimal(m) == decimal(n),
    ensures
        m == n,
{
    lemma_decimal(m);
    lemma_decimal(n);
}

/// The decimal notation of a number.
pub fn to_decimal(n: u64) -> (r: String)
    ensures
        r@ == decimal(n as nat),
    decreases n,
{
    let last = match n % 10 {
        0 => "0",
        1 => "1",
        2 => "2",
        3 => "3",
        4 => "4",
        5 => "5",
        6 => "6",
        7 => "7",
        8 => "8",
        _ => "9",
    };
    proof {
        reveal_strlit("0");
        reveal_strlit("1");
        reveal_strlit("2");
        reveal_strlit("3");
        reveal_strlit("4");
        reveal_strlit("5");
        reveal_strlit("6");
        reveal_strlit("7");
        reveal_strlit("8");
        reveal_strlit("9");
        assert(last@ =~= seq![digit((n % 10) as nat)]);
    }
    if n < 10 {
        last.to_string()
    } else {
        let mut r = to_decimal(n / 10);
        let ghost front = r@;
        r.append(last);
        assert(r@ =~= front.push(digit((n % 10) as nat)));
        r
    }
}

/// The number that a text spells in canonical decimal notation, if any.
pub open spec fn canonical(s: Seq<char>) -> Option<u64> {
    if exists|n: u64| #[trigger] decimal(n as nat) == s {
        Some(choose|n: u64| #[trigger] decimal(n as nat) == s)
    } else {
        None
    }
}

/// Each number has exactly one canonical spelling, and each text spells at most
/// one number.
pub proof fn law_one_spelling_per_number(s: Seq<char>, n: u64)
    ensures
        canonical(s) == Some(n) <==> s == decimal(n as nat),
{
    if s == decimal(n as nat) {
        let m = choose|m: u64| #[trigger] decimal(m as nat) == s;
        assert(decimal(m as nat) == s);
        lemma_decimal_injective(m as nat, n as nat);
    }
}

/// A text spells a number exactly if it is a row of digits without needless zeros whose
/// value is the number; and the decimal notation of a number is such a row.
pub proof fn law_numbers_are_rows_of_digits(s: Seq<char>, n: u64)
    ensures
        canonical(s) == Some(n) <==> is_canonical(s) && digits_value(s) == n,
        is_canonical(decimal(n as nat)),
        digits_value(decimal(n as nat)) == n,
{
    lemma_decimal(n as nat);
    law_one_spelling_per_number(s, n);
    if is_canonical(s) && digits_value(s) == n {
        lemma_canonical(s);
    }
}

/// The number that a text spells in canonical decimal notation, if it is one
/// that fits. Each number has exactly one such spelling.
pub fn canonical_u64(value: &str) -> (r: Option<u64>)
    ensures
        r == canonical(value@),
{
    let ghost s = value@;
    proof {
        assert forall|n: u64| #[trigger] decimal(n as nat) == s implies is_canonical(s)
            && digits_value(s) == n by {
            lemma_decimal(n as nat);
        }
    }
    if !value.is_ascii() {
        return None;
    }
    let bytes = value.as_bytes();
    proof {
        vstd::utf8::is_ascii_chars_encode_utf8(s);
    }
    if bytes.len() == 0 || (bytes[0] == 48 && bytes.len() > 1) {
        return None;
    }
    let mut n: u64 = 0;
    let mut i: usize = 0;
    assert(s.take(0) =~= Seq::empty());
    while i < bytes.len()
        invariant
            i <= bytes@.len(),
            s == value@,
            bytes@.len() == s.len(),
            forall|j: int| 0 <= j < s.len() ==> 0 <= #[trigger] s[j] as int <= 127,
            forall|j: int| 0 <= j < s.len() ==> #[trigger] s[j] as int == bytes@[j],
            forall|j: int| 0 <= j < i ==> is_digit(#[trigger] s[j]),
            forall|m: u64| #[trigger]
                decimal(m as nat) == s ==> is_canonical(s) && digits_value(s) == m,
            n == digits_value(s.take(i as int)),
        decreases bytes@.len() - i,
    {
        let b: u8 = bytes[i];
        assert(b == s[i as int] as int);
        if b < 48 || b > 57 {
            assert(!is_canonical(s)) by {
                assert(!is_digit(s[i as int]));
            }
            return None;
        }
        assert(s.take(i + 1).drop_last() =~= s.take(i as int));
        let d: u64 = (b - 48) as u64;
        if n > (u64::MAX - d) / 10 {
            proof {
                lemma_digits_value_prefix(s, i + 1);
            }
            return None;
        }
        n = n * 10 + d;
        i = i + 1;
    }
    proof {
        assert(s.take(i as int) =~= s);
        lemma_canonical(s);
        law_one_spelling_per_number(s, n);
    }
    Some(n)
}

} // verus!
