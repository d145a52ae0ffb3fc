//! The generator: encodes payloads into tokens and decodes them again.

use vstd::prelude::*;
use vstd::utf8::encode_utf8;
use crate::block::be_bytes;
use crate::block::be_value;
use crate::block::intact;
use crate::block::join_pair;
use crate::block::lemma_be_bytes_of_value;
use crate::block::lemma_pow256_widths;
use crate::block::lemma_sealed_block;
use crate::block::pair_payload;
use crate::block::payload_of;
use crate::block::plain_block;
use crate::block::seal;
use crate::block::split_pair;
use crate::block::unseal;
use crate::block::BLOCK_LEN;
use crate::block::U96_MAX;
use crate::cipher::aes128_decrypt;
use crate::cipher::aes128_encrypt;
use crate::cipher::decrypt_block;
use crate::cipher::encrypt_block;
use crate::cipher::encrypts_reversibly;
use crate::error::IdError;
use crate::keystore::derived_key;
use crate::keystore::refreshed;
use crate::keystore::KeyStore;
use crate::keystore::CAPACITY;
use crate::text::MAX_DIGITS;
use crate::token::block_of_token;
use crate::token::lemma_namespaces_apart;
use crate::token::lemma_parse_rendered;
use crate::token::parse_spec;
use crate::token::token_of_block;
use crate::token::token_text;

verus! {

/// The cipher block of `payload` in `namespace` under `secret`.
pub open spec fn cipher_block(secret: Seq<u8>, namespace: Seq<char>, payload: nat) -> Seq<u8> {
    aes128_encrypt(derived_key(secret, namespace), plain_block(payload))
}

/// The token of `payload` in `namespace` under `secret`.
pub open spec fn encode_spec(secret: Seq<u8>, namespace: Seq<char>, payload: nat) -> Seq<char> {
    token_text(namespace, be_value(cipher_block(secret, namespace, payload)))
}

/// What the token `input` decodes to under `secret`: its namespace and
/// payload, or the reason why it is refused.
pub open spec fn decode_spec(secret: Seq<u8>, input: Seq<char>) -> Result<
    (Seq<char>, u128),
    IdError,
> {
    match parse_spec(input) {
        Err(e) => Err(e),
        Ok((namespace, number)) => {
            let plain = aes128_decrypt(
                derived_key(secret, namespace),
                be_bytes(number as nat, BLOCK_LEN as nat),
            );
            if intact(plain) {
                Ok((namespace, payload_of(plain) as u128))
            } else {
                Err(IdError::Integrity)
            }
        },
    }
}

/// The namespace whose key a decoding of `input` asks for, if it gets that
/// far.
pub open spec fn namespace_of(input: Seq<char>) -> Option<Seq<char>> {
    match parse_spec(input) {
        Err(_) => None,
        Ok((namespace, _)) => Some(namespace),
    }
}

/// Decoding the token of a payload yields the namespace and the payload,
/// given that the cipher decrypts what it encrypted.
pub proof fn lemma_round_trip(secret: Seq<u8>, namespace: Seq<char>, payload: u128)
    requires
        payload <= U96_MAX,
        encrypts_reversibly(derived_key(secret, namespace), plain_block(payload as nat)),
    ensures
        decode_spec(secret, encode_spec(secret, namespace, payload as nat)) == Ok::<
            (Seq<char>, u128),
            IdError,
        >((namespace, payload)),
        encode_spec(secret, namespace, payload as nat).len() <= namespace.len() + 1 + MAX_DIGITS,
{
    let cipher = cipher_block(secret, namespace, payload as nat);
    let number = be_value(cipher);
    lemma_be_bytes_of_value(cipher);
    lemma_pow256_widths();
    lemma_parse_rendered(namespace, number as u128);
    lemma_sealed_block(payload as nat);
    crate::text::lemma_text_fits(number);
}

/// Tokens of distinct namespaces are distinct, whatever the payloads.
pub proof fn lemma_namespace_isolation(
    secret: Seq<u8>,
    first: Seq<char>,
    second: Seq<char>,
    a: nat,
    b: nat,
)
    requires
        first != second,
    ensures
        encode_spec(secret, first, a) != encode_spec(secret, second, b),
{
    lemma_namespaces_apart(
        first,
        second,
        be_value(cipher_block(secret, first, a)),
        be_value(cipher_block(secret, second, b)),
    );
}

/// Encodes identifiers into opaque tokens and back, under one root secret.
pub struct WasmIdGenerator {
    keys: KeyStore,
}

impl WasmIdGenerator {
    /// The root secret.
    pub closed spec fn secret(&self) -> Seq<u8> {
        self.keys.secret()
    }

    /// The cached namespaces with their keys, most recently used first.
    pub closed spec fn cache(&self) -> Seq<(Seq<char>, Seq<u8>)> {
        self.keys.entries()
    }

    /// The invariant of the generator: that of its key store.
    pub closed spec fn wf(&self) -> bool {
        self.keys.wf()
    }

    /// The cache after a request for the key of `namespace`.
    pub open spec fn cache_after(&self, namespace: Seq<char>) -> Seq<(Seq<char>, Seq<u8>)> {
        refreshed(
            self.cache(),
            namespace,
            derived_key(self.secret(), namespace),
            CAPACITY as nat,
        )
    }

    /// A generator for the secret `key`, with an empty cache.
    pub fn new(key: &str) -> (generator: Self)
        ensures
            generator.wf(),
            generator.secret() == encode_utf8(key@),
            generator.cache() == Seq::<(Seq<char>, Seq<u8>)>::empty(),
    {
        WasmIdGenerator { keys: KeyStore::new(key) }
    }

    /// The number of namespaces whose key is cached.
    pub fn cached_len(&self) -> (n: usize)
        ensures
            n == self.cache().len(),
    {
        self.keys.len()
    }

    /// Whether the key of `namespace` is cached.
    pub fn is_cached(&self, namespace: &str) -> (found: bool)
        ensures
            found == crate::keystore::has_key(self.cache(), namespace@),
    {
        self.keys.is_cached(namespace)
    }

    /// The token of the payload `i` in the namespace `t`. A payload above
    /// 2^96 - 1 is refused before anything else happens.
    pub fn encode(&mut self, t: &str, i: u128) -> (r: Result<String, IdError>)
        requires
            old(self).wf(),
        ensures
            final(self).wf(),
            final(self).secret() == old(self).secret(),
            i > U96_MAX ==> r == Err::<String, IdError>(IdError::Range) && final(self).cache()
                == old(self).cache(),
            i <= U96_MAX ==> r is Ok && r->Ok_0@ == encode_spec(old(self).secret(), t@, i as nat)
                && final(self).cache() == old(self).cache_after(t@),
            r is Ok ==> decode_spec(old(self).secret(), r->Ok_0@) == Ok::<
                (Seq<char>, u128),
                IdError,
            >((t@, i)),
            r is Ok ==> r->Ok_0@.len() <= t@.len() + 1 + MAX_DIGITS,
    {
        let block = match seal(i) {
            Ok(block) => block,
            Err(e) => {
                return Err(e);
            },
        };
        let key = self.keys.get_or_derive(t);
        let cipher = match encrypt_block(key.as_slice(), block.as_slice()) {
            Ok(cipher) => cipher,
            Err(_) => {
                return Err(IdError::KeyInit);
            },
        };
        proof {
            lemma_round_trip(old(self).secret(), t@, i);
        }
        Ok(token_of_block(t, cipher.as_slice()))
    }

    /// The namespace and the payload of the token `input`.
    pub fn decode(&mut self, input: &str) -> (r: Result<(String, u128), IdError>)
        requires
            old(self).wf(),
        ensures
            final(self).wf(),
            final(self).secret() == old(self).secret(),
            match r {
                Ok((namespace, payload)) => decode_spec(old(self).secret(), input@) == Ok::<
                    (Seq<char>, u128),
                    IdError,
                >((namespace@, payload)) && payload <= U96_MAX,
                Err(e) => decode_spec(old(self).secret(), input@) == Err::<
                    (Seq<char>, u128),
                    IdError,
                >(e),
            },
            final(self).cache() == match namespace_of(input@) {
                Some(namespace) => old(self).cache_after(namespace),
                None => old(self).cache(),
            },
    {
        let (namespace, cipher) = match block_of_token(input) {
            Ok(parts) => parts,
            Err(e) => {
                return Err(e);
            },
        };
        proof {
            lemma_be_bytes_of_value(cipher@);
            lemma_pow256_widths();
        }
        let key = self.keys.get_or_derive(namespace.as_str());
        let plain = match decrypt_block(key.as_slice(), cipher.as_slice()) {
            Ok(plain) => plain,
            Err(_) => {
                return Err(IdError::KeyInit);
            },
        };
        match unseal(plain.as_slice()) {
            Ok(payload) => Ok((namespace, payload)),
            Err(e) => Err(e),
        }
    }

    /// The token of the identifier `id` in its generation `generation`, in
    /// the namespace `t`: that of the payload which holds the identifier in
    /// its eight low bytes and the generation above them.
    pub fn encode_pair(&mut self, t: &str, id: u64, generation: u32) -> (r: Result<
        String,
        IdError,
    >)
        requires
            old(self).wf(),
        ensures
            final(self).wf(),
            final(self).secret() == old(self).secret(),
            final(self).cache() == old(self).cache_after(t@),
            r is Ok,
            r->Ok_0@ == encode_spec(old(self).secret(), t@, pair_payload(id, generation)),
            decode_spec(old(self).secret(), r->Ok_0@) == Ok::<(Seq<char>, u128), IdError>(
                (t@, pair_payload(id, generation) as u128),
            ),
            r->Ok_0@.len() <= t@.len() + 1 + MAX_DIGITS,
    {
        self.encode(t, join_pair(id, generation))
    }

    /// The namespace, the identifier and the generation of the token
    /// `input`.
    pub fn decode_pair(&mut self, input: &str) -> (r: Result<(String, u64, u32), IdError>)
        requires
            old(self).wf(),
        ensures
            final(self).wf(),
            final(self).secret() == old(self).secret(),
            match r {
                Ok((namespace, id, generation)) => decode_spec(old(self).secret(), input@) == Ok::<
                    (Seq<char>, u128),
                    IdError,
                >((namespace@, pair_payload(id, generation) as u128)),
                Err(e) => decode_spec(old(self).secret(), input@) == Err::<
                    (Seq<char>, u128),
                    IdError,
                >(e),
            },
            final(self).cache() == match namespace_of(input@) {
                Some(namespace) => old(self).cache_after(namespace),
                None => old(self).cache(),
            },
    {
        match self.decode(input) {
            Ok((namespace, payload)) => {
                let (id, generation) = split_pair(payload);
                Ok((namespace, id, generation))
            },
            Err(e) => Err(e),
        }
    }
}

} // verus!
