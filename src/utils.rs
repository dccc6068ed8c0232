//! Password hashing and session tokens.

use rand::Rng;
use sha1::{Digest, Sha1};
use vstd::prelude::*;
use vstd::string::StringSliceAdditionalSpecFns;

verus! {

/// Why an account operation failed.
#[derive(Clone, Copy, Debug, PartialEq, Eq, Structural)]
pub enum AppError {
    BadRequest,
}

/// The SHA-1 digest of a byte string.
pub uninterp spec fn sha1_of(bytes: Seq<u8>) -> Seq<u8>;

/// Relies on sha1's `Sha1` through `Digest::digest`: the SHA-1 digest of
/// `bytes`, twenty bytes long (`Sha1Core`'s output size is `U20`).
#[verifier::external_body]
fn sha1_digest(bytes: &[u8]) -> (r: Vec<u8>)
    ensures
        r@ == sha1_of(bytes@),
        r@.len() == 20,
{
    Sha1::digest(bytes).to_vec()
}

/// Relies on `String::push`: appends `c` to the end of `s`.
#[verifier::external_body]
fn push_char(s: &mut String, c: char)
    ensures
        final(s)@ == old(s)@.push(c),
{
    s.push(c)
}

/// Relies on rand's `thread_rng` and `Rng::gen_range`: a number below `n`
/// (the range `0..n` is not empty).
#[verifier::external_body]
fn random_below(n: usize) -> (r: usize)
    requires
        n > 0,
    ensures
        r < n,
{
    rand::thread_rng().gen_range(0..n)
}

/// The lowercase hexadecimal digit of `d`.
pub open spec fn hex_digit(d: int) -> char {
    if d < 10 {
        (48 + d) as char
    } else {
        (87 + d) as char
    }
}

/// Each byte as two lowercase hexadecimal digits, the high one first.
pub open spec fn hex_lower(bytes: Seq<u8>) -> Seq<char>
    decreases bytes.len(),
{
    if bytes.len() == 0 {
        Seq::empty()
    } else {
        let b = bytes.last() as int;
        hex_lower(bytes.drop_last()) + seq![hex_digit(b / 16), hex_digit(b % 16)]
    }
}

fn hex_digit_of(d: u8) -> (c: char)
    requires
        d < 16,
    ensures
        c == hex_digit(d as int),
{
    if d < 10 {
        (48 + d) as char
    } else {
        (87 + d) as char
    }
}

/// `digest` written as lowercase hexadecimal, two digits a byte.
pub fn hex_string(digest: &Vec<u8>) -> (r: String)
    ensures
        r@ == hex_lower(digest@),
{
    let mut out = String::new();
    let mut i: usize = 0;
    while i < digest.len()
        invariant
            0 <= i <= digest.len(),
            out@ == hex_lower(digest@.take(i as int)),
        decreases digest.len() - i,
    {
        let b = digest[i];
        push_char(&mut out, hex_digit_of(b / 16));
        push_char(&mut out, hex_digit_of(b % 16));
        proof {
            assert(digest@.take(i + 1).drop_last() =~= digest@.take(i as int));
            assert(out@ =~= hex_lower(digest@.take(i + 1)));
        }
        i += 1;
    }
    proof {
        assert(digest@.take(digest.len() as int) =~= digest@);
    }
    out
}

/// The SHA-1 digest of the password's UTF-8 bytes, in lowercase hexadecimal.
pub fn hash_password(password: &str) -> (r: Result<String, AppError>)
    ensures
        r matches Ok(h) && h@ == hex_lower(sha1_of(password.spec_bytes())),
{
    let digest = sha1_digest(password.as_bytes());
    Ok(hex_string(&digest))
}

/// A stored hash matches a digest when it is that digest in lowercase
/// hexadecimal.
pub fn digest_matches(hashed_password: &str, digest: &Vec<u8>) -> (r: bool)
    ensures
        r == (hashed_password@ == hex_lower(digest@)),
{
    let expected = hex_string(digest);
    hashed_password.to_owned() == expected
}

/// Whether `input_password` hashes to `hashed_password`.
pub fn verify_password(hashed_password: &str, input_password: &str) -> (r: Result<bool, AppError>)
    ensures
        r == Ok::<bool, AppError>(
            hashed_password@ == hex_lower(sha1_of(input_password.spec_bytes())),
        ),
{
    let digest = sha1_digest(input_password.as_bytes());
    Ok(digest_matches(hashed_password, &digest))
}

/// The number of characters of a session token.
pub const TOKEN_LEN: usize = 30;

/// The number of characters a token draws from.
pub const ALPHABET_LEN: usize = 62;

/// The token alphabet: `A`-`Z`, then `a`-`z`, then `0`-`9`.
pub open spec fn token_char(i: int) -> char {
    if i < 26 {
        (65 + i) as char
    } else if i < 52 {
        (97 + (i - 26)) as char
    } else {
        (48 + (i - 52)) as char
    }
}

/// `c` is a letter of the token alphabet.
pub open spec fn is_token_char(c: char) -> bool {
    exists|k: int| 0 <= k < ALPHABET_LEN && c == #[trigger] token_char(k)
}

fn token_char_at(i: usize) -> (c: char)
    requires
        i < ALPHABET_LEN,
    ensures
        c == token_char(i as int),
{
    let k = i as u8;
    if k < 26 {
        (65 + k) as char
    } else if k < 52 {
        (97 + (k - 26)) as char
    } else {
        (48 + (k - 52)) as char
    }
}

/// The token whose characters are the letters of the alphabet at `indices`.
pub fn token_from_indices(indices: &Vec<usize>) -> (r: String)
    requires
        forall|i: int| 0 <= i < indices.len() ==> #[trigger] indices@[i] < ALPHABET_LEN,
    ensures
        r@.len() == indices.len(),
        forall|i: int| 0 <= i < indices.len() ==> #[trigger] r@[i] == token_char(indices@[i] as int),
{
    let mut out = String::new();
    let mut i: usize = 0;
    while i < indices.len()
        invariant
            0 <= i <= indices.len(),
            forall|j: int| 0 <= j < indices.len() ==> #[trigger] indices@[j] < ALPHABET_LEN,
            out@.len() == i,
            forall|j: int| 0 <= j < i ==> #[trigger] out@[j] == token_char(indices@[j] as int),
        decreases indices.len() - i,
    {
        push_char(&mut out, token_char_at(indices[i]));
        i += 1;
    }
    out
}

/// A fresh session token: thirty characters, each drawn from the alphabet.
pub fn generate_session_token() -> (r: String)
    ensures
        r@.len() == TOKEN_LEN,
        forall|i: int| 0 <= i < TOKEN_LEN ==> is_token_char(#[trigger] r@[i]),
{
    let mut indices: Vec<usize> = Vec::new();
    while indices.len() < TOKEN_LEN
        invariant
            indices.len() <= TOKEN_LEN,
            forall|j: int| 0 <= j < indices.len() ==> #[trigger] indices@[j] < ALPHABET_LEN,
        decreases TOKEN_LEN - indices.len(),
    {
        indices.push(random_below(ALPHABET_LEN));
    }
    let token = token_from_indices(&indices);
    proof {
        assert forall|i: int| 0 <= i < TOKEN_LEN implies is_token_char(#[trigger] token@[i]) by {
            assert(token@[i] == token_char(indices@[i] as int));
        }
    }
    token
}

} // verus!
