//! Character classification, digit-run values, and decimal rendering of
//! integers, shared by the tokenizer, the raw-text parser and cell display.
use vstd::prelude::*;
use vstd::string::StrSliceExecFns;

verus! {

/// Whitespace that the tokenizer skips between tokens.
pub open spec fn is_ws_char(c: char) -> bool {
    c == ' ' || c == '\t' || c == '\r' || c == '\n'
}

/// An ASCII decimal digit.
pub open spec fn is_digit_char(c: char) -> bool {
    '0' <= c && c <= '9'
}

/// An ASCII uppercase letter, the column part of a cell reference.
pub open spec fn is_upper_char(c: char) -> bool {
    'A' <= c && c <= 'Z'
}

/// Numeric value of a single decimal digit character.
pub open spec fn digit_val(c: char) -> int {
    c as int - '0' as int
}

/// The digit character for a value between 0 and 9 (and `9` for anything
/// larger, which never arises).
pub open spec fn digit_char(d: int) -> char {
    if d == 0 {
        '0'
    } else if d == 1 {
        '1'
    } else if d == 2 {
        '2'
    } else if d == 3 {
        '3'
    } else if d == 4 {
        '4'
    } else if d == 5 {
        '5'
    } else if d == 6 {
        '6'
    } else if d == 7 {
        '7'
    } else if d == 8 {
        '8'
    } else {
        '9'
    }
}

/// Exec form of [`digit_char`].
pub fn digit_to_char(d: u8) -> (c: char)
    requires
        d <= 9,
    ensures
        c == digit_char(d as int),
{
    if d == 0 {
        '0'
    } else if d == 1 {
        '1'
    } else if d == 2 {
        '2'
    } else if d == 3 {
        '3'
    } else if d == 4 {
        '4'
    } else if d == 5 {
        '5'
    } else if d == 6 {
        '6'
    } else if d == 7 {
        '7'
    } else if d == 8 {
        '8'
    } else {
        '9'
    }
}

/// Value of the decimal digit run `s[i..j)`, most significant digit first.
pub open spec fn digits_val(s: Seq<char>, i: int, j: int) -> int
    decreases j - i,
{
    if j <= i {
        0
    } else {
        digits_val(s, i, j - 1) * 10 + digit_val(s[j - 1])
    }
}

/// Decimal digit characters of a non-negative integer, no sign, no leading
/// zeros (except for the single digit `0` itself).
pub open spec fn dec_digits(n: int) -> Seq<char>
    decreases n,
    when n >= 0
{
    if n < 10 {
        seq![digit_char(n)]
    } else {
        dec_digits(n / 10).push(digit_char(n % 10))
    }
}

/// Canonical decimal rendering of an integer: optional minus sign, then digits.
pub open spec fn dec_str(v: int) -> Seq<char> {
    if v < 0 {
        seq!['-'] + dec_digits(-v)
    } else {
        dec_digits(v)
    }
}

/// A sequence reversed: last element first.
pub open spec fn rev<T>(s: Seq<T>) -> Seq<T>
    decreases s.len(),
{
    if s.len() == 0 {
        Seq::empty()
    } else {
        seq![s.last()] + rev(s.drop_last())
    }
}

/// Positions in a reversed sequence, element by element.
pub proof fn lemma_rev_index<T>(s: Seq<T>)
    ensures
        rev(s).len() == s.len(),
        forall|k: int| 0 <= k < s.len() ==> rev(s)[k] == s[s.len() - 1 - k],
    decreases s.len(),
{
    if s.len() > 0 {
        lemma_rev_index(s.drop_last());
    }
}

/// Renders an integer in decimal, matching [`dec_str`].
pub fn int_to_string(v: i64) -> (r: String)
    ensures
        r@ == dec_str(v as int),
{
    let neg: bool = v < 0;
    let m_start: u64 = if v >= 0 {
        v as u64
    } else {
        ((-(v + 1)) as u64) + 1
    };
    let ghost m0 = m_start as int;
    assert(m0 == if v >= 0 { v as int } else { -(v as int) });
    let mut m: u64 = m_start;
    let mut digits: Vec<char> = Vec::new();
    if m == 0 {
        digits.push('0');
        assert(dec_digits(m0) =~= rev(digits@)) by {
            assert(digit_char(0) == '0');
            assert(digits@.drop_last() =~= Seq::<char>::empty());
            assert(rev(Seq::<char>::empty()) == Seq::<char>::empty());
            assert(rev(digits@) =~= seq!['0'] + Seq::<char>::empty());
        }
    } else {
        assert(dec_digits(m0) =~= dec_digits(m as int) + rev(digits@));
        while m > 0
            invariant
                0 <= m,
                0 <= m0,
                m > 0 ==> dec_digits(m0) == dec_digits(m as int) + rev(digits@),
                m == 0 ==> dec_digits(m0) == rev(digits@),
            decreases m,
        {
            let ghost dg = digits@;
            let ghost mi = m as int;
            let d: u64 = m % 10;
            let c: char = digit_to_char(d as u8);
            digits.push(c);
            m = m / 10;
            proof {
                assert(digits@.drop_last() =~= dg);
                assert(rev(digits@) =~= seq![c] + rev(dg));
                assert(mi == (mi / 10) * 10 + mi % 10) by {
                    vstd::arithmetic::div_mod::lemma_fundamental_div_mod(mi, 10);
                }
                if mi >= 10 {
                    assert(m > 0) by {
                        vstd::arithmetic::div_mod::lemma_div_non_zero(mi, 10);
                    }
                    assert(dec_digits(mi) == dec_digits(mi / 10).push(digit_char(mi % 10)));
                    assert(dec_digits(mi / 10) + rev(digits@) =~= (dec_digits(mi / 10).push(
                        digit_char(mi % 10),
                    )) + rev(dg));
                } else {
                    assert(mi / 10 == 0) by {
                        vstd::arithmetic::div_mod::lemma_basic_div(mi, 10);
                    }
                    assert(dec_digits(mi) == seq![digit_char(mi)]);
                    assert(rev(digits@) =~= dec_digits(mi) + rev(dg));
                }
            }
        }
    }
    assert(dec_digits(m0) == rev(digits@));
    let mut r = String::new();
    if neg {
        push_char(&mut r, '-');
    }
    let ghost sign_seq = r@;
    let n: usize = digits.len();
    proof {
        lemma_rev_index(digits@);
        assert(r@ =~= sign_seq + rev(digits@).take(0));
    }
    let mut k: usize = 0;
    while k < n
        invariant
            k <= n,
            n == digits.len(),
            r@ == sign_seq + rev(digits@).take(k as int),
        decreases n - k,
    {
        proof {
            lemma_rev_index(digits@);
        }
        let c: char = digits[n - 1 - k];
        push_char(&mut r, c);
        proof {
            assert(rev(digits@).take(k + 1 as int) =~= rev(digits@).take(k as int).push(c));
            assert(r@ =~= sign_seq + rev(digits@).take(k + 1 as int));
        }
        k = k + 1;
    }
    proof {
        lemma_rev_index(digits@);
        assert(rev(digits@).take(n as int) =~= rev(digits@));
        assert(r@ =~= sign_seq + dec_digits(m0));
        if neg {
            assert(r@ =~= dec_str(v as int));
        } else {
            assert(Seq::<char>::empty() + dec_digits(m0) =~= dec_digits(m0));
            assert(r@ =~= dec_str(v as int));
        }
    }
    r
}

/// Exec test for [`is_ws_char`].
pub fn is_ws(c: char) -> (r: bool)
    ensures
        r == is_ws_char(c),
{
    c == ' ' || c == '\t' || c == '\r' || c == '\n'
}

/// Exec test for [`is_digit_char`].
pub fn is_digit(c: char) -> (r: bool)
    ensures
        r == is_digit_char(c),
{
    c >= '0' && c <= '9'
}

/// Exec test for [`is_upper_char`].
pub fn is_upper(c: char) -> (r: bool)
    ensures
        r == is_upper_char(c),
{
    c >= 'A' && c <= 'Z'
}

/// Numeric value of a decimal digit character.
pub fn digit_of(c: char) -> (r: u8)
    requires
        is_digit_char(c),
    ensures
        r as int == digit_val(c),
        r <= 9,
{
    assert(c as int == c as u32 as int);
    (c as u32 - 48) as u8
}

/// The characters of a string, as an indexable vector.
pub fn chars_of(s: &str) -> (r: Vec<char>)
    ensures
        r@ == s@,
{
    let n: usize = s.unicode_len();
    let mut v: Vec<char> = Vec::new();
    let mut i: usize = 0;
    while i < n
        invariant
            i <= n,
            n == s@.len(),
            v@ == s@.take(i as int),
        decreases n - i,
    {
        let c: char = s.get_char(i);
        v.push(c);
        assert(s@.take(i + 1 as int) =~= s@.take(i as int).push(s@[i as int]));
        i = i + 1;
    }
    assert(v@ =~= s@);
    v
}

/// Relies on `String::pop`: removes and returns the last character, if any.
#[verifier::external_body]
pub fn pop_char(s: &mut String) -> (r: Option<char>)
    ensures
        old(s)@.len() == 0 ==> final(s)@ == old(s)@ && r is None,
        old(s)@.len() > 0 ==> final(s)@ == old(s)@.drop_last() && r == Some(old(s)@.last()),
{
    s.pop()
}

/// Relies on `String::push`: appends one character at the end of the string.
#[verifier::external_body]
pub fn push_char(s: &mut String, c: char)
    ensures
        final(s)@ == old(s)@.push(c),
{
    s.push(c);
}

} // verus!
