//! The text of a token: the namespace, a separator, and a number in base62.

use vstd::prelude::*;
use vstd::string::StringExecFns;
use vstd::utf8::encode_utf8;
use crate::block::be_bytes;
use crate::block::be_value;
use crate::block::from_be_bytes;
use crate::block::lemma_be_value_of_bytes;
use crate::block::lemma_pow256_widths;
use crate::block::to_be_bytes;
use crate::block::BLOCK_LEN;
use crate::error::FormatFault;
use crate::error::IdError;
use crate::text::base62_decode;
use crate::text::base62_encode;
use crate::text::base62_text;
use crate::text::base62_value;
use crate::text::decodable;
use crate::text::lemma_base62_is_plain;
use crate::text::lemma_text_fits;
use crate::text::lemma_text_is_base62;
use crate::text::lemma_value_of_text;
use crate::text::MAX_DIGITS;

verus! {

/// The character between the namespace and the digits.
pub const SEPARATOR: char = '_';

/// The token of `number` in `namespace`.
pub open spec fn token_text(namespace: Seq<char>, number: nat) -> Seq<char> {
    namespace + seq![SEPARATOR] + base62_text(number)
}

/// The position of the last `c` in `s`, or -1 where `s` holds none.
pub open spec fn last_index_of(s: Seq<char>, c: char) -> int
    decreases s.len(),
{
    if s.len() == 0 {
        -1
    } else if s.last() == c {
        s.len() - 1
    } else {
        last_index_of(s.drop_last(), c)
    }
}

/// The namespace and the number of the token `input`, or what is wrong with
/// its text. The token is split at its last separator.
pub open spec fn parse_spec(input: Seq<char>) -> Result<(Seq<char>, u128), IdError> {
    let at = last_index_of(input, SEPARATOR);
    let tail = input.skip(at + 1);
    if at < 0 {
        Err(IdError::Format(FormatFault::MissingSeparator))
    } else if encode_utf8(tail).len() > MAX_DIGITS {
        Err(IdError::Format(FormatFault::TailTooLong))
    } else if !decodable(tail) {
        Err(IdError::Format(FormatFault::InvalidBase62))
    } else {
        Ok((input.take(at), base62_value(tail) as u128))
    }
}

/// Calls `str::rsplit_once` of std. Trusted: where `s` holds `separator`, the
/// result is what stands before and after its last occurrence; otherwise
/// there is none.
#[verifier::external_body]
fn rsplit_at<'a>(s: &'a str, separator: char) -> (r: Option<(&'a str, &'a str)>)
    ensures
        r is None <==> !s@.contains(separator),
        r matches Some(parts) ==> s@ == parts.0@ + seq![separator] + parts.1@,
        r matches Some(parts) ==> !parts.1@.contains(separator),
{
    s.rsplit_once(separator)
}

/// `last_index_of` is -1 exactly where the character does not occur, and
/// otherwise a position that holds it.
pub proof fn lemma_last_index(s: Seq<char>, c: char)
    ensures
        -1 <= last_index_of(s, c) < s.len(),
        last_index_of(s, c) >= 0 <==> s.contains(c),
        last_index_of(s, c) >= 0 ==> s[last_index_of(s, c)] == c,
    decreases s.len(),
{
    if s.len() > 0 {
        if s.last() == c {
            assert(s[s.len() - 1] == c);
        } else {
            lemma_last_index(s.drop_last(), c);
            if s.contains(c) {
                let i = choose|i: int| 0 <= i < s.len() && s[i] == c;
                assert(s.drop_last()[i] == c);
            }
            if s.drop_last().contains(c) {
                let i = choose|i: int| 0 <= i < s.drop_last().len() && s.drop_last()[i] == c;
                assert(s[i] == c);
            }
        }
    }
}

/// In `head`, `c`, `tail`, where `tail` holds no `c`, the last `c` stands
/// right after `head`.
pub proof fn lemma_last_index_split(head: Seq<char>, c: char, tail: Seq<char>)
    requires
        !tail.contains(c),
    ensures
        last_index_of(head + seq![c] + tail, c) == head.len(),
        (head + seq![c] + tail).take(head.len() as int) == head,
        (head + seq![c] + tail).skip(head.len() as int + 1) == tail,
    decreases tail.len(),
{
    let s = head + seq![c] + tail;
    assert(s.take(head.len() as int) =~= head);
    assert(s.skip(head.len() as int + 1) =~= tail);
    if tail.len() > 0 {
        assert(tail[tail.len() - 1] != c);
        assert(s.last() == tail.last());
        assert(s.drop_last() =~= head + seq![c] + tail.drop_last());
        if tail.drop_last().contains(c) {
            let i = choose|i: int| 0 <= i < tail.drop_last().len() && tail.drop_last()[i] == c;
            assert(tail[i] == c);
        }
        lemma_last_index_split(head, c, tail.drop_last());
    }
}

/// The token of `number` in `namespace`.
pub fn render_token(namespace: &str, number: u128) -> (token: String)
    ensures
        token@ == token_text(namespace@, number as nat),
{
    let digits = base62_encode(number);
    let mut token = namespace.to_owned();
    proof {
        reveal_strlit("_");
        assert("_"@ =~= seq![SEPARATOR]);
    }
    token.append("_");
    token.append(digits.as_str());
    token
}

/// The namespace and the number of the token `input`.
pub fn parse_token(input: &str) -> (r: Result<(String, u128), IdError>)
    ensures
        match r {
            Ok((namespace, number)) => parse_spec(input@) == Ok::<(Seq<char>, u128), IdError>(
                (namespace@, number),
            ),
            Err(e) => parse_spec(input@) == Err::<(Seq<char>, u128), IdError>(e),
        },
{
    proof {
        lemma_last_index(input@, SEPARATOR);
    }
    let (namespace, tail) = match rsplit_at(input, SEPARATOR) {
        Some(parts) => parts,
        None => {
            return Err(IdError::Format(FormatFault::MissingSeparator));
        },
    };
    proof {
        lemma_last_index_split(namespace@, SEPARATOR, tail@);
    }
    if tail.as_bytes().len() > MAX_DIGITS {
        return Err(IdError::Format(FormatFault::TailTooLong));
    }
    match base62_decode(tail) {
        Ok(number) => Ok((namespace.to_owned(), number)),
        Err(_) => Err(IdError::Format(FormatFault::InvalidBase62)),
    }
}

/// A rendered token parses into its namespace and number.
pub proof fn lemma_parse_rendered(namespace: Seq<char>, number: u128)
    ensures
        parse_spec(token_text(namespace, number as nat)) == Ok::<(Seq<char>, u128), IdError>(
            (namespace, number),
        ),
{
    let digits = base62_text(number as nat);
    lemma_text_is_base62(number as nat);
    lemma_text_fits(number as nat);
    lemma_value_of_text(number as nat);
    lemma_base62_is_plain(digits);
    lemma_last_index_split(namespace, SEPARATOR, digits);
}

/// Tokens of distinct namespaces are distinct, whatever their numbers.
pub proof fn lemma_namespaces_apart(first: Seq<char>, second: Seq<char>, a: nat, b: nat)
    requires
        first != second,
    ensures
        token_text(first, a) != token_text(second, b),
{
    lemma_text_is_base62(a);
    lemma_text_is_base62(b);
    lemma_base62_is_plain(base62_text(a));
    lemma_base62_is_plain(base62_text(b));
    lemma_last_index_split(first, SEPARATOR, base62_text(a));
    lemma_last_index_split(second, SEPARATOR, base62_text(b));
}

/// The token of the cipher block `block` in `namespace`: the block is read as
/// one number, most significant byte first.
pub fn token_of_block(namespace: &str, block: &[u8]) -> (token: String)
    requires
        block@.len() == BLOCK_LEN,
    ensures
        token@ == token_text(namespace@, be_value(block@)),
        token@.len() <= namespace@.len() + 1 + MAX_DIGITS,
{
    let number = from_be_bytes(block);
    proof {
        lemma_text_fits(number as nat);
    }
    render_token(namespace, number)
}

/// The namespace and the cipher block of the token `input`.
pub fn block_of_token(input: &str) -> (r: Result<(String, Vec<u8>), IdError>)
    ensures
        match r {
            Ok((namespace, block)) => parse_spec(input@) is Ok && parse_spec(input@)->Ok_0
                == (namespace@, be_value(block@) as u128) && block@ == be_bytes(
                be_value(block@),
                BLOCK_LEN as nat,
            ) && block@.len() == BLOCK_LEN,
            Err(e) => parse_spec(input@) == Err::<(Seq<char>, u128), IdError>(e),
        },
{
    match parse_token(input) {
        Ok((namespace, number)) => {
            let block = to_be_bytes(number);
            proof {
                lemma_pow256_widths();
                lemma_be_value_of_bytes(number as nat, BLOCK_LEN as nat);
            }
            Ok((namespace, block))
        },
        Err(e) => Err(e),
    }
}

} // verus!
