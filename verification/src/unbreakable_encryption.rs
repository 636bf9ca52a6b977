//! Encryption with a key as long as the text that is used once: the text
//! is kept as two keys, each of which alone says nothing.
use rand::Rng;
use vstd::prelude::*;
use vstd::string::StringSliceAdditionalSpecFns;

verus! {

/// A random key and the text combined with it.
pub struct KeyPair {
    pub key_1: Vec<u8>,
    pub key_2: Vec<u8>,
}

/// Draws a byte: `gen` of rand, on the generator of the current thread.
/// Nothing is promised of the outcome.
#[verifier::external_body]
fn random_byte() -> u8 {
    rand::thread_rng().gen()
}

/// The bytes of `a`, each combined by exclusive or with the byte of `b` at
/// its position, as far as both reach.
pub open spec fn xor_bytes(a: Seq<u8>, b: Seq<u8>) -> Seq<u8> {
    Seq::new(
        if a.len() <= b.len() {
            a.len()
        } else {
            b.len()
        },
        |i: int| a[i] ^ b[i],
    )
}

/// Combining with the same key twice gives the text back.
pub proof fn lemma_xor_twice(text: Seq<u8>, key: Seq<u8>)
    requires
        key.len() == text.len(),
    ensures
        xor_bytes(key, xor_bytes(text, key)) == text,
{
    assert forall|i: int| 0 <= i < text.len() implies #[trigger] xor_bytes(key, xor_bytes(text, key))[i]
        == text[i] by {
        let t = text[i];
        let k = key[i];
        assert(k ^ (t ^ k) == t) by (bit_vector);
    }
    assert(xor_bytes(key, xor_bytes(text, key)) =~= text);
}

impl KeyPair {
    /// A key of `length` random bytes.
    pub fn random_key(length: usize) -> (key: Vec<u8>)
        ensures
            key@.len() == length,
    {
        let mut dummy: Vec<u8> = Vec::new();
        let mut i: usize = 0;
        while i < length
            invariant
                0 <= i <= length,
                dummy@.len() == i,
            decreases length - i,
        {
            dummy.push(random_byte());
            i += 1;
        }
        dummy
    }

    /// The pair of `dummy_key` and the text combined with it.
    pub fn encrypt_with_key(original: &str, dummy_key: Vec<u8>) -> (pair: KeyPair)
        requires
            dummy_key@.len() == original.spec_bytes().len(),
        ensures
            pair.key_1 == dummy_key,
            pair.key_2@ == xor_bytes(original.spec_bytes(), dummy_key@),
    {
        let original_bytes = original.as_bytes();
        let mut encrypted_key: Vec<u8> = Vec::new();
        let mut i: usize = 0;
        while i < original_bytes.len()
            invariant
                0 <= i <= original_bytes@.len(),
                original_bytes@ == original.spec_bytes(),
                dummy_key@.len() == original_bytes@.len(),
                encrypted_key@.len() == i,
                forall|k: int| 0 <= k < i ==> encrypted_key@[k] == original_bytes@[k] ^ dummy_key@[k],
            decreases original_bytes@.len() - i,
        {
            encrypted_key.push(original_bytes[i] ^ dummy_key[i]);
            i += 1;
        }
        assert(encrypted_key@ =~= xor_bytes(original.spec_bytes(), dummy_key@));
        KeyPair { key_1: dummy_key, key_2: encrypted_key }
    }

    /// The pair of a fresh random key and the text combined with it.
    pub fn encrypt(original: &str) -> (pair: KeyPair)
        ensures
            pair.key_1@.len() == original.spec_bytes().len(),
            pair.key_2@ == xor_bytes(original.spec_bytes(), pair.key_1@),
            xor_bytes(pair.key_1@, pair.key_2@) == original.spec_bytes(),
    {
        let dummy_key = Self::random_key(original.as_bytes().len());
        proof {
            lemma_xor_twice(original.spec_bytes(), dummy_key@);
        }
        Self::encrypt_with_key(original, dummy_key)
    }

    /// The bytes of the text that the two keys hold between them.
    pub fn decrypt(self) -> (decrypted: Vec<u8>)
        ensures
            decrypted@ == xor_bytes(self.key_1@, self.key_2@),
    {
        let mut decrypted: Vec<u8> = Vec::new();
        let mut i: usize = 0;
        while i < self.key_1.len() && i < self.key_2.len()
            invariant
                0 <= i <= self.key_1@.len(),
                i <= self.key_2@.len(),
                decrypted@.len() == i,
                forall|k: int| 0 <= k < i ==> decrypted@[k] == self.key_1@[k] ^ self.key_2@[k],
            decreases self.key_1@.len() - i,
        {
            decrypted.push(self.key_1[i] ^ self.key_2[i]);
            i += 1;
        }
        assert(decrypted@ =~= xor_bytes(self.key_1@, self.key_2@));
        decrypted
    }
}

} // verus!
