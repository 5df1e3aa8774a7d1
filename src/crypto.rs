//! Password-derived keys and authenticated encryption of blocks.
use vstd::prelude::*;
use vstd::utf8::encode_utf8;
use sodiumoxide::crypto::pwhash;
use sodiumoxide::crypto::secretbox;

verus! {

/// Bytes in a symmetric key.
pub const KEY_BYTES: usize = 32;

/// Bytes in a nonce.
pub const NONCE_BYTES: usize = 24;

/// Bytes in a password salt.
pub const SALT_BYTES: usize = 32;

/// Bytes by which a sealed block is longer than its plaintext.
pub const MAC_BYTES: usize = 16;

/// The key that the password hash derives from a password and a salt.
pub uninterp spec fn derived_key(password: Seq<u8>, salt: Seq<u8>) -> Seq<u8>;

/// The sealed form of a plaintext under a nonce and a key.
pub uninterp spec fn sealed(plain: Seq<u8>, nonce: Seq<u8>, key: Seq<u8>) -> Seq<u8>;

/// Relies on pwhash::derive_key (scrypt at the interactive limits): the key
/// depends on the password and the salt alone; the call fails only where the
/// system refuses the memory it asks for.
#[verifier::external_body]
fn derive(password: &[u8], salt: &[u8; 32]) -> (r: Option<[u8; 32]>)
    ensures
        r is Some ==> r->0@ == derived_key(password@, salt@),
{
    let mut k = [0u8; 32];
    match pwhash::derive_key(
        &mut k,
        password,
        &pwhash::Salt(*salt),
        pwhash::OPSLIMIT_INTERACTIVE,
        pwhash::MEMLIMIT_INTERACTIVE,
    ) {
        Ok(_) => Some(k),
        Err(()) => None,
    }
}

/// Relies on pwhash::gen_salt: random bytes.
#[verifier::external_body]
fn random_salt() -> (r: [u8; 32]) {
    pwhash::gen_salt().0
}

/// Relies on secretbox::gen_nonce: random bytes.
#[verifier::external_body]
fn random_nonce() -> (r: [u8; 24]) {
    secretbox::gen_nonce().0
}

/// Relies on secretbox::seal: the ciphertext depends on the plaintext, nonce
/// and key alone, and is longer than the plaintext by the tag.
#[verifier::external_body]
fn seal(m: &[u8], n: &[u8; 24], k: &[u8; 32]) -> (r: Vec<u8>)
    ensures
        r@ == sealed(m@, n@, k@),
        r@.len() == m@.len() + MAC_BYTES,
{
    secretbox::seal(m, &secretbox::Nonce(*n), &secretbox::Key(*k))
}

/// Relies on secretbox::open: it succeeds exactly on a ciphertext that seals
/// some plaintext under the nonce and key, and then yields that plaintext.
#[verifier::external_body]
fn open(c: &[u8], n: &[u8; 24], k: &[u8; 32]) -> (r: Option<Vec<u8>>)
    ensures
        r is Some ==> sealed(r->0@, n@, k@) == c@,
        forall|p: Seq<u8>| #[trigger] sealed(p, n@, k@) == c@ ==> r is Some && r->0@ == p,
{
    secretbox::open(c, &secretbox::Nonce(*n), &secretbox::Key(*k)).ok()
}

/// Derives the session key from a password and the database's salt. The same
/// password and salt always give the same key; `None` where the system could
/// not provide the memory the derivation needs.
pub fn password_deriv(password: &str, salt: [u8; 32]) -> (r: Option<[u8; 32]>)
    ensures
        r is Some ==> r->0@ == derived_key(encode_utf8(password@), salt@),
{
    derive(password.as_bytes(), &salt)
}

/// A fresh random salt.
pub fn new_salt() -> (r: [u8; 32]) {
    random_salt()
}

/// Seals a block under a fresh random nonce; the ciphertext and the nonce.
pub fn encrypt_block(input_block: &[u8], key: &[u8; 32]) -> (r: (Vec<u8>, [u8; 24]))
    ensures
        r.0@ == sealed(input_block@, r.1@, key@),
        r.0@.len() == input_block@.len() + MAC_BYTES,
{
    let nonce = random_nonce();
    let c = seal(input_block, &nonce, key);
    (c, nonce)
}

/// Opens a sealed block: the plaintext that was sealed under this nonce and
/// key, or `None` where the block was sealed otherwise or was altered.
pub fn decrypt_block(input_block: &[u8], key: &[u8; 32], nonce: [u8; 24]) -> (r: Option<Vec<u8>>)
    ensures
        r is Some ==> sealed(r->0@, nonce@, key@) == input_block@,
        forall|p: Seq<u8>| #[trigger] sealed(p, nonce@, key@) == input_block@ ==> r is Some && r->0@ == p,
{
    open(input_block, &nonce, key)
}

/// A nonce read back from its file: exactly the nonce length, else `None`.
pub fn nonce_from_bytes(b: &[u8]) -> (r: Option<[u8; 24]>)
    ensures
        r is Some <==> b@.len() == NONCE_BYTES,
        r is Some ==> r->0@ == b@,
{
    if b.len() != NONCE_BYTES {
        return None;
    }
    let mut n = [0u8; 24];
    let mut i: usize = 0;
    while i < 24
        invariant
            i <= 24,
            b@.len() == 24,
            n@.len() == 24,
            forall|k: int| 0 <= k < i ==> n@[k] == b@[k],
        decreases 24 - i,
    {
        n[i] = b[i];
        i += 1;
    }
    assert(n@ =~= b@);
    Some(n)
}

/// A salt read back from its file: exactly the salt length, else `None`.
pub fn salt_from_bytes(b: &[u8]) -> (r: Option<[u8; 32]>)
    ensures
        r is Some <==> b@.len() == SALT_BYTES,
        r is Some ==> r->0@ == b@,
{
    if b.len() != SALT_BYTES {
        return None;
    }
    let mut s = [0u8; 32];
    let mut i: usize = 0;
    while i < 32
        invariant
            i <= 32,
            b@.len() == 32,
            s@.len() == 32,
            forall|k: int| 0 <= k < i ==> s@[k] == b@[k],
        decreases 32 - i,
    {
        s[i] = b[i];
        i += 1;
    }
    assert(s@ =~= b@);
    Some(s)
}

} // verus!
