//! SHA-256 digests, and bytes as hexadecimal text.
use sha2::Digest;
use vstd::prelude::*;

verus! {

/// `sha2::Sha256`, the incremental hasher.
#[verifier::external_type_specification]
#[verifier::external_body]
pub struct ExSha256(sha2::Sha256);

/// The bytes that a hasher has taken in.
pub uninterp spec fn taken(hasher: sha2::Sha256) -> Seq<u8>;

/// The SHA-256 digest of bytes.
pub uninterp spec fn sha256(data: Seq<u8>) -> Seq<u8>;

/// `sha2::Sha256::new`: a hasher that has taken in nothing.
#[verifier::external_body]
fn new_hasher() -> (h: sha2::Sha256)
    ensures
        taken(h) == Seq::<u8>::empty(),
{
    sha2::Sha256::new()
}

/// `sha2::Sha256::update`: the hasher takes in the data after what it has.
#[verifier::external_body]
fn take_in(h: &mut sha2::Sha256, data: &[u8])
    ensures
        taken(*final(h)) == taken(*old(h)) + data@,
{
    h.update(data);
}

/// `sha2::Sha256::finalize`: the digest, 32 bytes, is a function of the bytes
/// taken in.
#[verifier::external_body]
fn finish(h: sha2::Sha256) -> (digest: Vec<u8>)
    ensures
        digest@ == sha256(taken(h)),
        digest@.len() == 32,
{
    h.finalize().to_vec()
}

/// A hexadecimal digit, lower case.
pub open spec fn hex_digit(n: int) -> char {
    if n < 10 {
        (48 + n) as u8 as char
    } else {
        (87 + n) as u8 as char
    }
}

/// Bytes as lower-case hexadecimal text, two digits each.
pub open spec fn hex_of(bytes: Seq<u8>) -> Seq<char> {
    Seq::new(
        bytes.len() * 2,
        |i: int|
            hex_digit(
                if i % 2 == 0 {
                    bytes[i / 2] as int / 16
                } else {
                    bytes[i / 2] as int % 16
                },
            ),
    )
}

fn hex_char(n: u8) -> (c: char)
    requires
        n < 16,
    ensures
        c == hex_digit(n as int),
{
    if n < 10 {
        (48 + n) as char
    } else {
        (87 + n) as char
    }
}

/// Bytes as lower-case hexadecimal text.
pub fn hex(bytes: &Vec<u8>) -> (s: String)
    ensures
        s@ == hex_of(bytes@),
{
    let ghost all = hex_of(bytes@);
    let mut s: String = String::new();
    let mut i: usize = 0;
    while i < bytes.len()
        invariant
            i <= bytes@.len(),
            all == hex_of(bytes@),
            s@ == all.take(2 * i),
        decreases bytes@.len() - i,
    {
        let b: u8 = bytes[i];
        assert(all[2 * i as int] == hex_digit(b as int / 16)) by {
            assert((2 * i as int) % 2 == 0 && (2 * i as int) / 2 == i);
        }
        assert(all[2 * i + 1] == hex_digit(b as int % 16)) by {
            assert((2 * i + 1) % 2 == 1 && (2 * i + 1) / 2 == i);
        }
        s.push(hex_char(b / 16));
        s.push(hex_char(b % 16));
        assert(s@ =~= all.take(2 * (i + 1)));
        i = i + 1;
    }
    assert(all.take(2 * i as int) =~= all);
    s
}

/// The hexadecimal SHA-256 digest of bytes that come piece by piece.
pub struct Hasher {
    inner: sha2::Sha256,
}

impl View for Hasher {
    type V = Seq<u8>;

    closed spec fn view(&self) -> Seq<u8> {
        taken(self.inner)
    }
}

impl Hasher {
    /// Nothing taken in yet.
    pub fn new() -> (h: Hasher)
        ensures
            h@ == Seq::<u8>::empty(),
    {
        Hasher { inner: new_hasher() }
    }

    /// Takes in the next bytes.
    pub fn update(&mut self, data: &[u8])
        ensures
            final(self)@ == old(self)@ + data@,
    {
        take_in(&mut self.inner, data);
    }

    /// The digest of everything taken in, as 64 hexadecimal digits.
    pub fn finish(self) -> (s: String)
        ensures
            s@ == hex_of(sha256(self@)),
            s@.len() == 64,
    {
        let digest: Vec<u8> = finish(self.inner);
        hex(&digest)
    }
}

/// What a hexadecimal digit stands for.
pub open spec fn hex_value(c: char) -> int {
    if '0' <= c <= '9' {
        c as int - '0' as int
    } else {
        c as int - 'a' as int + 10
    }
}

/// A byte is written as two digits, the higher one first, in lower case.
pub proof fn law_bytes_are_two_hex_digits(bytes: Seq<u8>, i: int)
    requires
        0 <= i < bytes.len(),
    ensures
        ({
            let (a, b) = (hex_of(bytes)[2 * i], hex_of(bytes)[2 * i + 1]);
            &&& hex_of(bytes).len() == 2 * bytes.len()
            &&& '0' <= a <= '9' || 'a' <= a <= 'f'
            &&& '0' <= b <= '9' || 'a' <= b <= 'f'
            &&& 16 * hex_value(a) + hex_value(b) == bytes[i]
        }),
{
    let x = bytes[i] as int;
    assert((2 * i) % 2 == 0 && (2 * i) / 2 == i);
    assert((2 * i + 1) % 2 == 1 && (2 * i + 1) / 2 == i);
    assert(0 <= x / 16 < 16 && 0 <= x % 16 < 16);
    assert(forall|n: int| 0 <= n < 16 ==> hex_value(#[trigger] hex_digit(n)) == n);
}

} // verus!
