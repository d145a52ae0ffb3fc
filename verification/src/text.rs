//! Base62 text: the digits `0-9`, `A-Z`, `a-z`, most significant first.

use vstd::prelude::*;
use base62::DecodeError;

verus! {

/// The longest base62 text of a 128-bit number.
pub const MAX_DIGITS: usize = 22;

/// The character of the digit `d`, for `d` below 62.
pub open spec fn digit_char(d: int) -> char {
    if d < 10 {
        (48 + d) as char
    } else if d < 36 {
        (55 + d) as char
    } else {
        (61 + d) as char
    }
}

/// Whether `c` is one of the 62 digits.
pub open spec fn is_digit_char(c: char) -> bool {
    ('0' <= c && c <= '9') || ('A' <= c && c <= 'Z') || ('a' <= c && c <= 'z')
}

/// The digit that `c` stands for, where `c` is a digit.
pub open spec fn char_digit(c: char) -> int {
    if c <= '9' {
        c as int - 48
    } else if c <= 'Z' {
        c as int - 55
    } else {
        c as int - 61
    }
}

/// The base62 text of `n`: no leading zero, and `"0"` for zero.
pub open spec fn base62_text(n: nat) -> Seq<char>
    decreases n,
{
    if n < 62 {
        seq![digit_char(n as int)]
    } else {
        base62_text(n / 62).push(digit_char((n % 62) as int))
    }
}

/// Whether every character of `s` is a digit.
pub open spec fn is_base62(s: Seq<char>) -> bool {
    forall|i: int| 0 <= i < s.len() ==> is_digit_char(#[trigger] s[i])
}

/// The number that the digits `s` denote, leading zeros allowed.
pub open spec fn base62_value(s: Seq<char>) -> nat
    decreases s.len(),
{
    if s.len() == 0 {
        0
    } else {
        (base62_value(s.drop_last()) * 62 + char_digit(s.last())) as nat
    }
}

/// Whether `s` is the base62 text of some 128-bit number: not empty, digits
/// only, and of a value below 2^128.
pub open spec fn decodable(s: Seq<char>) -> bool {
    s.len() > 0 && is_base62(s) && base62_value(s) <= u128::MAX
}

/// 62 to the power `k`.
pub open spec fn pow62(k: nat) -> nat
    decreases k,
{
    if k == 0 {
        1
    } else {
        62 * pow62((k - 1) as nat)
    }
}

/// Calls `base62::encode`. Trusted: the result is `n` in base 62 with the
/// standard alphabet, most significant digit first, without leading zeros.
#[verifier::external_body]
pub(crate) fn base62_encode(n: u128) -> (s: String)
    ensures
        s@ == base62_text(n as nat),
{
    base62::encode(n)
}

/// `base62::DecodeError`: why a text could not be decoded.
#[verifier::external_type_specification]
#[verifier::external_body]
pub struct ExDecodeError(DecodeError);

/// Calls `base62::decode`. Trusted: it succeeds exactly on a non-empty text
/// of standard base62 digits whose value fits in 128 bits, and then returns
/// that value; leading zeros are accepted.
#[verifier::external_body]
pub(crate) fn base62_decode(s: &str) -> (r: Result<u128, DecodeError>)
    ensures
        r is Ok <==> decodable(s@),
        r is Ok ==> r->Ok_0 == base62_value(s@),
{
    base62::decode(s)
}

/// A digit's character is a digit, and stands for that digit.
pub proof fn lemma_digit_char(d: int)
    requires
        0 <= d < 62,
    ensures
        is_digit_char(digit_char(d)),
        char_digit(digit_char(d)) == d,
        digit_char(d) != '_',
{
}

/// The text of a number holds digits only, and at least one.
pub proof fn lemma_text_is_base62(n: nat)
    ensures
        base62_text(n).len() >= 1,
        is_base62(base62_text(n)),
    decreases n,
{
    if n < 62 {
        lemma_digit_char(n as int);
    } else {
        lemma_text_is_base62(n / 62);
        lemma_digit_char((n % 62) as int);
    }
}

/// The text of a number denotes that number.
pub proof fn lemma_value_of_text(n: nat)
    ensures
        base62_value(base62_text(n)) == n,
    decreases n,
{
    if n < 62 {
        lemma_digit_char(n as int);
        let s = base62_text(n);
        assert(s.drop_last() =~= Seq::<char>::empty());
        assert(base62_value(s.drop_last()) == 0);
    } else {
        lemma_value_of_text(n / 62);
        lemma_digit_char((n % 62) as int);
        let s = base62_text(n);
        assert(s.drop_last() =~= base62_text(n / 62));
    }
}

/// A text of more than `k` digits, for `k` at least one, denotes a number of
/// at least 62 to the power `k`.
pub proof fn lemma_text_len(n: nat, k: nat)
    requires
        k >= 1,
        base62_text(n).len() > k,
    ensures
        n >= pow62(k),
    decreases n,
{
    if n >= 62 {
        if k >= 2 {
            lemma_text_len(n / 62, (k - 1) as nat);
            assert(n >= 62 * (n / 62));
        } else {
            assert(pow62(1) == 62) by {
                reveal_with_fuel(pow62, 2);
            }
        }
    }
}

/// 62 to the power 22 exceeds every 128-bit number.
pub proof fn lemma_pow62_max_digits()
    ensures
        pow62(MAX_DIGITS as nat) > u128::MAX,
{
    assert(pow62(0) == 1);
    assert(pow62(2) == 3844) by {
        reveal_with_fuel(pow62, 3);
    }
    assert(pow62(4) == 3844 * 3844) by {
        reveal_with_fuel(pow62, 3);
    }
    assert(pow62(6) == 3844 * 14776336) by {
        reveal_with_fuel(pow62, 3);
    }
    assert(pow62(8) == 3844 * 56800235584) by {
        reveal_with_fuel(pow62, 3);
    }
    assert(pow62(10) == 3844 * 218340105584896) by {
        reveal_with_fuel(pow62, 3);
    }
    assert(pow62(12) == 3844 * 839299365868340224) by {
        reveal_with_fuel(pow62, 3);
    }
    assert(pow62(14) == 3844 * 3226266762397899821056) by {
        reveal_with_fuel(pow62, 3);
    }
    assert(pow62(16) == 3844 * 12401769434657526912139264) by {
        reveal_with_fuel(pow62, 3);
    }
    assert(pow62(18) == 3844 * 47672401706823533450263330816) by {
        reveal_with_fuel(pow62, 3);
    }
    assert(pow62(20) == 3844 * 183252712161029662582812243656704) by {
        reveal_with_fuel(pow62, 3);
    }
    assert(pow62(22) == 3844 * 704423425546998022968330264616370176) by {
        reveal_with_fuel(pow62, 3);
    }
}

/// The text of a 128-bit number has at most 22 digits.
pub proof fn lemma_text_fits(n: nat)
    requires
        n <= u128::MAX,
    ensures
        1 <= base62_text(n).len() <= MAX_DIGITS,
{
    lemma_text_is_base62(n);
    if base62_text(n).len() > MAX_DIGITS {
        lemma_text_len(n, MAX_DIGITS as nat);
        lemma_pow62_max_digits();
    }
}

/// Digits are ASCII and none of them is the separator.
pub proof fn lemma_base62_is_plain(s: Seq<char>)
    requires
        is_base62(s),
    ensures
        vstd::utf8::is_ascii_chars(s),
        !s.contains('_'),
        vstd::utf8::encode_utf8(s).len() == s.len(),
{
    assert forall|i: int| 0 <= i < s.len() implies '\0' <= #[trigger] s[i] <= '\u{7f}' by {
        assert(is_digit_char(s[i]));
    }
    vstd::utf8::is_ascii_chars_encode_utf8(s);
    if s.contains('_') {
        let i = choose|i: int| 0 <= i < s.len() && s[i] == '_';
        assert(is_digit_char(s[i]));
    }
}

} // verus!
