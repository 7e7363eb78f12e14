//! Sealing stored passwords under a passphrase, and opening them again.
//!
//! A stored secret is the standard Base64 text of `nonce ‖ ciphertext`, where
//! the ciphertext is AES-256-GCM (no associated data) of the password's UTF-8
//! bytes under a 12-byte random nonce, and the key is the SHA-256 digest of
//! the passphrase's UTF-8 bytes.
use aes_gcm::aead::{Aead, AeadCore, KeyInit, OsRng};
use aes_gcm::{Aes256Gcm, Key, Nonce};
use base64::engine::general_purpose::STANDARD;
use base64::Engine;
use vstd::prelude::*;
use vstd::utf8::{decode_utf8, encode_utf8, valid_utf8};

verus! {

broadcast use {vstd::utf8::encode_utf8_valid_utf8, vstd::utf8::encode_utf8_decode_utf8};

/// The largest plaintext that AES-GCM seals, in bytes.
pub const MAX_PLAINTEXT: u64 = 68719476736;

/// Length of an AES-GCM nonce, in bytes.
pub const NONCE_LEN: usize = 12;

/// Length of an AES-GCM authentication tag, in bytes.
pub const TAG_LEN: usize = 16;

/// Lower-case hexadecimal text of the SHA-256 digest of `data`.
pub uninterp spec fn sha256_hex_digest(data: Seq<u8>) -> Seq<char>;

/// AES-256-GCM ciphertext (tag appended, no associated data).
pub uninterp spec fn aes256gcm_sealed(key: Seq<u8>, nonce: Seq<u8>, plaintext: Seq<u8>) -> Seq<u8>;

/// AES-256-GCM decryption (no associated data): `None` when the tag does not verify.
pub uninterp spec fn aes256gcm_opened(key: Seq<u8>, nonce: Seq<u8>, ciphertext: Seq<u8>) -> Option<Seq<u8>>;

/// The character of the standard Base64 alphabet for a 6-bit value.
pub open spec fn base64_char(v: int) -> char {
    if v < 26 {
        (65 + v) as char
    } else if v < 52 {
        (71 + v) as char
    } else if v < 62 {
        (v - 4) as char
    } else if v == 62 {
        '+'
    } else {
        '/'
    }
}

/// Standard Base64 text (with padding) of `data`: each group of three bytes
/// becomes four characters, six bits each, high bits first; a last group of
/// one or two bytes is padded with `=`.
pub open spec fn base64_standard_encode(data: Seq<u8>) -> Seq<char>
    decreases data.len(),
{
    if data.len() == 0 {
        Seq::empty()
    } else if data.len() == 1 {
        seq![base64_char((data[0] / 4) as int), base64_char((data[0] % 4) * 16), '=', '=']
    } else if data.len() == 2 {
        seq![
            base64_char((data[0] / 4) as int),
            base64_char((data[0] % 4) * 16 + data[1] / 16),
            base64_char((data[1] % 16) * 4),
            '=',
        ]
    } else {
        seq![
            base64_char((data[0] / 4) as int),
            base64_char((data[0] % 4) * 16 + data[1] / 16),
            base64_char((data[1] % 16) * 4 + data[2] / 64),
            base64_char((data[2] % 64) as int),
        ] + base64_standard_encode(data.subrange(3, data.len() as int))
    }
}

/// Standard Base64 decoding (canonical, with padding): the bytes whose
/// encoding is exactly `text`, or `None` when no bytes encode to it.
pub open spec fn base64_standard_decode(text: Seq<char>) -> Option<Seq<u8>> {
    if exists|b: Seq<u8>| #[trigger] base64_standard_encode(b) == text {
        Some(choose|b: Seq<u8>| #[trigger] base64_standard_encode(b) == text)
    } else {
        None
    }
}

/// Distinct 6-bit values have distinct alphabet characters.
proof fn lemma_base64_char_injective(x: int, y: int)
    requires
        0 <= x < 64,
        0 <= y < 64,
        base64_char(x) == base64_char(y),
    ensures
        x == y,
{
}

/// No alphabet character is the padding character.
proof fn lemma_base64_char_not_pad(x: int)
    requires
        0 <= x < 64,
    ensures
        base64_char(x) != '=',
{
}

/// Two digits in base `m` (`0 <= q, s < m`) are equal when their values are.
proof fn lemma_digits_equal(p: int, q: int, r: int, s: int, m: int)
    by (nonlinear_arith)
    requires
        0 < m,
        0 <= q < m,
        0 <= s < m,
        p * m + q == r * m + s,
    ensures
        p == r,
        q == s,
{
}

/// A byte is fixed by its quotient and remainder by a positive divisor.
proof fn lemma_byte_from_parts(x: int, y: int, m: int)
    by (nonlinear_arith)
    requires
        0 < m,
        0 <= x,
        0 <= y,
        x / m == y / m,
        x % m == y % m,
    ensures
        x == y,
{
}

/// Base64 text of non-empty bytes has at least four characters.
proof fn lemma_base64_encode_len(data: Seq<u8>)
    ensures
        data.len() > 0 ==> base64_standard_encode(data).len() >= 4,
        data.len() == 0 ==> base64_standard_encode(data).len() == 0,
{
}

/// The first four characters of Base64 text, by the length of the bytes.
proof fn lemma_base64_encode_head(data: Seq<u8>)
    requires
        data.len() > 0,
    ensures
        base64_standard_encode(data).len() >= 4,
        base64_standard_encode(data)[0] == base64_char((data[0] / 4) as int),
        data.len() == 1 ==> {
            &&& base64_standard_encode(data)[1] == base64_char((data[0] % 4) as int * 16)
            &&& base64_standard_encode(data)[2] == '='
            &&& base64_standard_encode(data)[3] == '='
        },
        data.len() == 2 ==> {
            &&& base64_standard_encode(data)[1] == base64_char((data[0] % 4) as int * 16 + (data[1] / 16) as int)
            &&& base64_standard_encode(data)[2] == base64_char((data[1] % 16) as int * 4)
            &&& base64_standard_encode(data)[3] == '='
        },
        data.len() >= 3 ==> {
            &&& base64_standard_encode(data)[1] == base64_char((data[0] % 4) as int * 16 + (data[1] / 16) as int)
            &&& base64_standard_encode(data)[2] == base64_char((data[1] % 16) as int * 4 + (data[2] / 64) as int)
            &&& base64_standard_encode(data)[3] == base64_char((data[2] % 64) as int)
            &&& base64_standard_encode(data).subrange(4, base64_standard_encode(data).len() as int)
                == base64_standard_encode(data.subrange(3, data.len() as int))
        },
{
    let e = base64_standard_encode(data);
    if data.len() >= 3 {
        let rest = base64_standard_encode(data.subrange(3, data.len() as int));
        assert(e.subrange(4, e.len() as int) =~= rest);
    }
}

/// Different bytes have different Base64 text.
pub proof fn lemma_base64_encode_injective(a: Seq<u8>, b: Seq<u8>)
    requires
        base64_standard_encode(a) == base64_standard_encode(b),
    ensures
        a == b,
    decreases a.len(),
{
    let e = base64_standard_encode(a);
    lemma_base64_encode_len(a);
    lemma_base64_encode_len(b);
    if a.len() == 0 || b.len() == 0 {
        assert(a.len() == 0 && b.len() == 0);
        assert(a =~= b);
        return;
    }
    lemma_base64_encode_head(a);
    lemma_base64_encode_head(b);
    // The padding tells the length class.
    if a.len() >= 2 {
        lemma_base64_char_not_pad((a[0] % 4) as int * 16 + (a[1] / 16) as int);
    }
    if b.len() >= 2 {
        lemma_base64_char_not_pad((b[0] % 4) as int * 16 + (b[1] / 16) as int);
    }
    if a.len() >= 3 {
        lemma_base64_char_not_pad((a[1] % 16) as int * 4 + (a[2] / 64) as int);
        lemma_base64_char_not_pad((a[2] % 64) as int);
    }
    if b.len() >= 3 {
        lemma_base64_char_not_pad((b[1] % 16) as int * 4 + (b[2] / 64) as int);
        lemma_base64_char_not_pad((b[2] % 64) as int);
    }
    if a.len() == 2 {
        lemma_base64_char_not_pad((a[1] % 16) as int * 4);
    }
    if b.len() == 2 {
        lemma_base64_char_not_pad((b[1] % 16) as int * 4);
    }
    lemma_base64_char_injective((a[0] / 4) as int, (b[0] / 4) as int);
    if a.len() == 1 {
        assert(b.len() == 1);
        lemma_base64_char_injective((a[0] % 4) as int * 16, (b[0] % 4) as int * 16);
        assert(a =~= b);
    } else if a.len() == 2 {
        assert(b.len() == 2);
        lemma_base64_char_injective((a[0] % 4) as int * 16 + (a[1] / 16) as int, (b[0] % 4) as int * 16 + (b[1] / 16) as int);
        lemma_base64_char_injective((a[1] % 16) as int * 4, (b[1] % 16) as int * 4);
        lemma_digits_equal((a[0] % 4) as int, (a[1] / 16) as int, (b[0] % 4) as int, (b[1] / 16) as int, 16);
        lemma_byte_from_parts(a[0] as int, b[0] as int, 4);
        lemma_byte_from_parts(a[1] as int, b[1] as int, 16);
        assert(a =~= b);
    } else {
        assert(b.len() >= 3);
        lemma_base64_char_injective((a[0] % 4) as int * 16 + (a[1] / 16) as int, (b[0] % 4) as int * 16 + (b[1] / 16) as int);
        lemma_base64_char_injective((a[1] % 16) as int * 4 + (a[2] / 64) as int, (b[1] % 16) as int * 4 + (b[2] / 64) as int);
        lemma_base64_char_injective((a[2] % 64) as int, (b[2] % 64) as int);
        lemma_digits_equal((a[0] % 4) as int, (a[1] / 16) as int, (b[0] % 4) as int, (b[1] / 16) as int, 16);
        lemma_digits_equal((a[1] % 16) as int, (a[2] / 64) as int, (b[1] % 16) as int, (b[2] / 64) as int, 4);
        lemma_byte_from_parts(a[0] as int, b[0] as int, 4);
        lemma_byte_from_parts(a[1] as int, b[1] as int, 16);
        lemma_byte_from_parts(a[2] as int, b[2] as int, 64);
        let ta = a.subrange(3, a.len() as int);
        let tb = b.subrange(3, b.len() as int);
        lemma_base64_encode_injective(ta, tb);
        assert(a.len() == b.len());
        assert forall|i: int| 0 <= i < a.len() implies a[i] == b[i] by {
            if i >= 3 {
                assert(a[i] == ta[i - 3]);
                assert(b[i] == tb[i - 3]);
            }
        }
        assert(a =~= b);
    }
}



/// The bytes an optional vector holds.
pub open spec fn bytes_view(v: Option<Vec<u8>>) -> Option<Seq<u8>> {
    match v {
        Some(b) => Some(b@),
        None => None,
    }
}

pub open spec fn is_lower_hex_char(c: char) -> bool {
    ('0' <= c && c <= '9') || ('a' <= c && c <= 'f')
}

/// The value of an ASCII hexadecimal digit byte, either case.
pub open spec fn hex_digit_value(b: u8) -> Option<u8> {
    if 48 <= b && b <= 57 {
        Some((b - 48) as u8)
    } else if 97 <= b && b <= 102 {
        Some((b - 87) as u8)
    } else if 65 <= b && b <= 70 {
        Some((b - 55) as u8)
    } else {
        None
    }
}

/// Hexadecimal text (as bytes) to the bytes it spells: two digits per byte,
/// high digit first; `None` for odd length or a non-digit.
pub open spec fn hex_decoded(text: Seq<u8>) -> Option<Seq<u8>> {
    if text.len() % 2 == 0 && (forall|i: int| 0 <= i < text.len() ==> #[trigger] hex_digit_value(text[i]) is Some) {
        Some(Seq::new(text.len() / 2, |i: int| (hex_digit_value(text[2 * i]).unwrap() * 16 + hex_digit_value(text[2 * i + 1]).unwrap()) as u8))
    } else {
        None
    }
}

/// The AES-256 key that a passphrase stands for.
pub open spec fn passphrase_key(passphrase: Seq<char>) -> Seq<u8> {
    hex_decoded(encode_utf8(sha256_hex_digest(encode_utf8(passphrase)))).unwrap()
}

/// Whether Base64 text of `n` bytes has a length that a `String` can hold
/// (at most `isize::MAX` bytes).
pub open spec fn base64_fits(n: int) -> bool {
    (n + 2) / 3 * 4 <= isize::MAX
}

/// The stored text of `password` sealed under `passphrase` with `nonce`.
pub open spec fn sealed_text(password: Seq<char>, passphrase: Seq<char>, nonce: Seq<u8>) -> Seq<char> {
    base64_standard_encode(nonce + aes256gcm_sealed(passphrase_key(passphrase), nonce, encode_utf8(password)))
}

/// Whether `stored` is `password` sealed under `passphrase` with `nonce`.
pub open spec fn sealed_under(stored: Seq<char>, passphrase: Seq<char>, password: Seq<char>, nonce: Seq<u8>) -> bool {
    &&& nonce.len() == NONCE_LEN
    &&& sealable(password)
    &&& stored == sealed_text(password, passphrase, nonce)
}

/// Whether `password` can be sealed: AES-GCM takes it and the stored text's
/// length fits in `usize`.
pub open spec fn sealable(password: Seq<char>) -> bool {
    encode_utf8(password).len() <= MAX_PLAINTEXT
        && base64_fits(encode_utf8(password).len() + NONCE_LEN + TAG_LEN)
}

/// The text that `stored` opens to under `passphrase`; the empty text when it
/// is not Base64, too short, fails authentication, or is not UTF-8.
pub open spec fn opened_text(stored: Seq<char>, passphrase: Seq<char>) -> Seq<char> {
    match base64_standard_decode(stored) {
        None => Seq::empty(),
        Some(bytes) => if bytes.len() < NONCE_LEN {
            Seq::empty()
        } else {
            match aes256gcm_opened(
                passphrase_key(passphrase),
                bytes.subrange(0, NONCE_LEN as int),
                bytes.subrange(NONCE_LEN as int, bytes.len() as int),
            ) {
                None => Seq::empty(),
                Some(plain) => if valid_utf8(plain) {
                    decode_utf8(plain)
                } else {
                    Seq::empty()
                },
            }
        },
    }
}

/// `sha256::digest` on bytes: the lower-case hexadecimal text of their SHA-256
/// digest. Claimed: the result is the named digest of the input, 64 characters
/// long, each a lower-case hexadecimal digit (the crate hex-encodes the digest).
#[verifier::external_body]
pub(crate) fn sha256_hex(data: &[u8]) -> (r: String)
    ensures
        r@ == sha256_hex_digest(data@),
        r@.len() == 64,
        forall|i: int| 0 <= i < r@.len() ==> is_lower_hex_char(#[trigger] r@[i]),
{
    sha256::digest(data)
}

/// `Aes256Gcm::encrypt` with the given key and nonce and no associated data.
/// Claimed: it succeeds exactly when the plaintext is at most 2^36 bytes, and
/// then returns the named ciphertext, 16 bytes longer than the plaintext.
#[verifier::external_body]
fn aes256gcm_encrypt(key: &[u8], nonce: &[u8], plaintext: &[u8]) -> (r: Option<Vec<u8>>)
    requires
        key@.len() == 32,
        nonce@.len() == NONCE_LEN,
    ensures
        r is Some <==> plaintext@.len() <= MAX_PLAINTEXT,
        r matches Some(c) ==> c@ == aes256gcm_sealed(key@, nonce@, plaintext@),
        r matches Some(c) ==> c@.len() == plaintext@.len() + TAG_LEN,
{
    let cipher = Aes256Gcm::new(Key::<Aes256Gcm>::from_slice(key));
    match cipher.encrypt(Nonce::from_slice(nonce), plaintext) {
        Ok(c) => Some(c),
        Err(_) => None,
    }
}

/// `Aes256Gcm::decrypt` with the given key and nonce and no associated data.
/// Claimed: the result is the named decryption; and AES-GCM opens what it
/// sealed under the same key and nonce.
#[verifier::external_body]
fn aes256gcm_decrypt(key: &[u8], nonce: &[u8], ciphertext: &[u8]) -> (r: Option<Vec<u8>>)
    requires
        key@.len() == 32,
        nonce@.len() == NONCE_LEN,
    ensures
        bytes_view(r) == aes256gcm_opened(key@, nonce@, ciphertext@),
        forall|m: Seq<u8>|
            m.len() <= MAX_PLAINTEXT && ciphertext@ == #[trigger] aes256gcm_sealed(key@, nonce@, m)
                ==> bytes_view(r) == Some(m),
{
    let cipher = Aes256Gcm::new(Key::<Aes256Gcm>::from_slice(key));
    match cipher.decrypt(Nonce::from_slice(nonce), ciphertext) {
        Ok(p) => Some(p),
        Err(_) => None,
    }
}

/// `Aes256Gcm::generate_nonce` from the operating system's random source.
/// Claimed: 12 bytes; nothing about their value.
#[verifier::external_body]
fn fresh_nonce() -> (r: Vec<u8>)
    ensures
        r@.len() == NONCE_LEN,
{
    Aes256Gcm::generate_nonce(&mut OsRng).to_vec()
}

/// `base64::engine::general_purpose::STANDARD.encode`. Claimed: the
/// standard padded encoding as `base64_standard_encode` states it. It panics
/// only when the output length overflows `usize` or exceeds what a buffer can
/// hold (`isize::MAX` bytes), which `requires` rules out.
#[verifier::external_body]
fn base64_encode(data: &[u8]) -> (r: String)
    requires
        base64_fits(data@.len() as int),
    ensures
        r@ == base64_standard_encode(data@),
{
    STANDARD.encode(data)
}

/// `base64::engine::general_purpose::STANDARD.decode`. Claimed: the result is
/// `base64_standard_decode`: the engine requires canonical padding and no
/// stray trailing bits, so it accepts exactly the texts it would encode, and
/// gives back the bytes they encode.
#[verifier::external_body]
fn base64_decode(text: &str) -> (r: Option<Vec<u8>>)
    ensures
        bytes_view(r) == base64_standard_decode(text@),
{
    match STANDARD.decode(text) {
        Ok(b) => Some(b),
        Err(_) => None,
    }
}

/// `String::from_utf8`. Claimed: it succeeds exactly on valid UTF-8, and the
/// string's UTF-8 encoding is then the given bytes.
#[verifier::external_body]
fn string_from_utf8(bytes: Vec<u8>) -> (r: Option<String>)
    ensures
        r is Some <==> valid_utf8(bytes@),
        r matches Some(s) ==> encode_utf8(s@) == bytes@,
{
    match String::from_utf8(bytes) {
        Ok(s) => Some(s),
        Err(_) => None,
    }
}

/// The value of one hexadecimal digit byte (either case).
fn hex_digit(b: u8) -> (r: Option<u8>)
    ensures
        r == hex_digit_value(b),
{
    if 48 <= b && b <= 57 {
        Some(b - 48)
    } else if 97 <= b && b <= 102 {
        Some(b - 87)
    } else if 65 <= b && b <= 70 {
        Some(b - 55)
    } else {
        None
    }
}

/// Decodes hexadecimal text given as bytes: two digits per byte, high digit
/// first.
pub fn decode_hex(text: &[u8]) -> (r: Option<Vec<u8>>)
    ensures
        r matches Some(v) ==> hex_decoded(text@) == Some(v@),
        r is None ==> hex_decoded(text@) is None,
{
    let n = text.len();
    if n % 2 != 0 {
        return None;
    }
    let mut out: Vec<u8> = Vec::new();
    let mut i: usize = 0;
    while i < n / 2
        invariant
            n == text@.len(),
            n % 2 == 0,
            i <= n / 2,
            out@.len() == i,
            forall|j: int| 0 <= j < 2 * i ==> #[trigger] hex_digit_value(text@[j]) is Some,
            forall|j: int|
                0 <= j < i ==> #[trigger] out@[j] == (hex_digit_value(text@[2 * j]).unwrap() * 16
                    + hex_digit_value(text@[2 * j + 1]).unwrap()) as u8,
        decreases n / 2 - i,
    {
        let hi = match hex_digit(text[2 * i]) {
            Some(d) => d,
            None => {
                return None;
            },
        };
        let lo = match hex_digit(text[2 * i + 1]) {
            Some(d) => d,
            None => {
                return None;
            },
        };
        out.push(hi * 16 + lo);
        i = i + 1;
    }
    assert(out@ =~= Seq::new(text@.len() / 2, |i: int| (hex_digit_value(text@[2 * i]).unwrap() * 16 + hex_digit_value(text@[2 * i + 1]).unwrap()) as u8));
    Some(out)
}

/// The AES-256 key for `passphrase`: its SHA-256 digest.
fn passphrase_key_bytes(passphrase: &str) -> (r: Vec<u8>)
    ensures
        r@ == passphrase_key(passphrase@),
        r@.len() == 32,
{
    let digest = sha256_hex(passphrase.as_bytes());
    let text = digest.as_str().as_bytes();
    proof {
        assert(vstd::utf8::is_ascii_chars(digest@));
        vstd::utf8::is_ascii_chars_encode_utf8(digest@);
        assert forall|i: int| 0 <= i < text@.len() implies #[trigger] hex_digit_value(text@[i]) is Some by {
            assert(is_lower_hex_char(digest@[i]));
        }
    }
    match decode_hex(text) {
        Some(key) => key,
        None => {
            proof {
                assert(false);
            }
            Vec::new()
        },
    }
}

/// Seals `password` under `passphrase` with `nonce`, giving the text to
/// store. `None` exactly when the nonce is not 12 bytes long or the password
/// is too long to seal.
pub fn seal_with_nonce(password: &str, passphrase: &str, nonce: &[u8]) -> (r: Option<String>)
    ensures
        r is Some <==> (nonce@.len() == NONCE_LEN && sealable(password@)),
        r matches Some(s) ==> s@ == sealed_text(password@, passphrase@, nonce@),
{
    if nonce.len() != NONCE_LEN {
        return None;
    }
    let key = passphrase_key_bytes(passphrase);
    let plain = password.as_bytes();
    let mut ciphertext = match aes256gcm_encrypt(&key, nonce, plain) {
        Some(c) => c,
        None => {
            return None;
        },
    };
    if ciphertext.len() > usize::MAX - NONCE_LEN {
        return None;
    }
    let n = nonce.len() + ciphertext.len();
    let chunks = if n % 3 == 0 { n / 3 } else { n / 3 + 1 };
    assert(chunks == (n + 2) / 3);
    if chunks > (isize::MAX as usize) / 4 {
        return None;
    }
    let mut combined = vstd::slice::slice_to_vec(nonce);
    let ghost sealed = ciphertext@;
    combined.append(&mut ciphertext);
    assert(combined@ == nonce@ + sealed);
    let text = base64_encode(&combined);
    Some(text)
}

/// Seals `password` under `passphrase` with a fresh random nonce, giving the
/// text to store. `None` exactly when the password is too long to seal.
pub fn seal_password(password: &str, passphrase: &str) -> (r: Option<String>)
    ensures
        r is Some <==> sealable(password@),
        r matches Some(s) ==> exists|nonce: Seq<u8>| #[trigger] sealed_under(s@, passphrase@, password@, nonce),
{
    let nonce = fresh_nonce();
    let r = seal_with_nonce(password, passphrase, nonce.as_slice());
    proof {
        if r is Some {
            assert(sealed_under(r->0@, passphrase@, password@, nonce@));
        }
    }
    r
}

/// Sealed bytes are the nonce followed by the ciphertext.
proof fn lemma_sealed_layout(
    stored: Seq<char>,
    passphrase: Seq<char>,
    password: Seq<char>,
    nonce: Seq<u8>,
    decoded: Seq<u8>,
)
    requires
        sealed_under(stored, passphrase, password, nonce),
        base64_standard_decode(stored) == Some(decoded),
    ensures
        decoded.len() >= NONCE_LEN,
        decoded.subrange(0, NONCE_LEN as int) == nonce,
        decoded.subrange(NONCE_LEN as int, decoded.len() as int) == aes256gcm_sealed(
            passphrase_key(passphrase),
            nonce,
            encode_utf8(password),
        ),
{
    let c = aes256gcm_sealed(passphrase_key(passphrase), nonce, encode_utf8(password));
    let chosen = choose|b: Seq<u8>| #[trigger] base64_standard_encode(b) == stored;
    assert(base64_standard_encode(nonce + c) == stored);
    lemma_base64_encode_injective(chosen, nonce + c);
    assert(decoded == nonce + c);
    assert(decoded.subrange(0, NONCE_LEN as int) =~= nonce);
    assert(decoded.subrange(NONCE_LEN as int, decoded.len() as int) =~= c);
}

/// Opens a stored text under `passphrase`; the empty string when the text is
/// not Base64, too short, fails authentication, or does not hold UTF-8.
/// What `seal_password` stored opens to the sealed password again.
pub fn open_password(stored: &str, passphrase: &str) -> (r: String)
    ensures
        r@ == opened_text(stored@, passphrase@),
        forall|password: Seq<char>, nonce: Seq<u8>|
            #[trigger] sealed_under(stored@, passphrase@, password, nonce) ==> r@ == password,
{
    let mut nonce = match base64_decode(stored) {
        Some(b) => b,
        None => {
            return String::new();
        },
    };
    let ghost all = nonce@;
    let decrypted = if nonce.len() < NONCE_LEN {
        proof {
            assert forall|password: Seq<char>, n: Seq<u8>|
                #[trigger] sealed_under(stored@, passphrase@, password, n) implies false by {
                lemma_sealed_layout(stored@, passphrase@, password, n, all);
            }
        }
        None
    } else {
        let ciphertext = nonce.split_off(NONCE_LEN);
        let key = passphrase_key_bytes(passphrase);
        let d = aes256gcm_decrypt(&key, &nonce, &ciphertext);
        proof {
            assert forall|password: Seq<char>, n: Seq<u8>|
                #[trigger] sealed_under(stored@, passphrase@, password, n) implies bytes_view(d) == Some(
                    encode_utf8(password),
                ) by {
                lemma_sealed_layout(stored@, passphrase@, password, n, all);
            }
        }
        d
    };
    match decrypted {
        None => String::new(),
        Some(plain) => {
            let ghost plain_bytes = plain@;
            match string_from_utf8(plain) {
                Some(s) => {
                    proof {
                        vstd::utf8::decode_utf8_encode_utf8(plain_bytes);
                    }
                    s
                },
                None => String::new(),
            }
        },
    }
}

} // verus!
