//! Scoring of one attempt: a SHA-256 digest over the salt followed by the
//! attempt text, judged by the leading zero bits of its first four bytes.
use vstd::prelude::*;
use vstd::arithmetic::power2::pow2;
use vstd::std_specs::bits::u32_leading_zeros;
use vstd::string::StringSliceAdditionalSpecFns;
use sha2::Digest;

verus! {

/// The SHA-256 digest of `data`.
pub uninterp spec fn sha256_of(data: Seq<u8>) -> Seq<u8>;

/// Relies on `sha2::Sha256::digest`: the digest of the bytes given, 32 bytes long.
#[verifier::external_body]
fn sha256(data: &[u8]) -> (r: Vec<u8>)
    ensures
        r@ == sha256_of(data@),
        r@.len() == 32,
{
    sha2::Sha256::digest(data).to_vec()
}

/// The lowercase hexadecimal character for a nibble `d < 16`.
pub open spec fn hex_char(d: nat) -> char {
    if d < 10 {
        ((48 + d) as u8) as char
    } else {
        ((87 + d) as u8) as char
    }
}

/// Two lowercase hexadecimal characters per byte, high nibble first.
pub open spec fn hex_text(b: Seq<u8>) -> Seq<char>
    decreases b.len(),
{
    if b.len() == 0 {
        Seq::empty()
    } else {
        hex_text(b.drop_last()) + seq![hex_char(b.last() as nat / 16), hex_char(b.last() as nat % 16)]
    }
}

/// Relies on `hex::encode`: each byte becomes its high then its low nibble,
/// written with the digits `0123456789abcdef`.
#[verifier::external_body]
fn hex_lower(b: &[u8]) -> (r: String)
    ensures
        r@ == hex_text(b@),
{
    hex::encode(b)
}

/// The first four bytes of `d` read as a big-endian unsigned integer.
pub open spec fn be_word(d: Seq<u8>) -> nat {
    d[0] as nat * 16777216 + d[1] as nat * 65536 + d[2] as nat * 256 + d[3] as nat
}

/// The number of leading zero bits of the first four bytes of `d`.
pub open spec fn leading_zero_bits(d: Seq<u8>) -> nat {
    u32_leading_zeros(be_word(d) as u32) as nat
}

/// Whether the digest `d` has at least `difficulty` leading zero bits.
pub open spec fn meets_difficulty(d: Seq<u8>, difficulty: nat) -> bool {
    leading_zero_bits(d) >= difficulty
}

/// The bytes that are hashed for `attempt` under `salt`: no separator.
pub open spec fn hash_input(salt: Seq<u8>, attempt: Seq<u8>) -> Seq<u8> {
    salt + attempt
}

/// The outcome of scoring one attempt.
pub struct Evaluation {
    pub accepted: bool,
    pub hash_hex: String,
}

/// The first four bytes of `digest`, big-endian.
pub fn first_word(digest: &[u8]) -> (r: u32)
    requires
        digest@.len() >= 4,
    ensures
        r as nat == be_word(digest@),
{
    let a = digest[0] as u32;
    let b = digest[1] as u32;
    let c = digest[2] as u32;
    let d = digest[3] as u32;
    assert(a * 16777216 + b * 65536 + c * 256 + d < 0x1_0000_0000) by (nonlinear_arith)
        requires
            a < 256,
            b < 256,
            c < 256,
            d < 256,
    ;
    a * 16777216 + b * 65536 + c * 256 + d
}

/// Leading zero bits of the first four bytes of `digest`, from 0 to 32.
pub fn digest_leading_zeros(digest: &[u8]) -> (r: u32)
    requires
        digest@.len() >= 4,
    ensures
        r as nat == leading_zero_bits(digest@),
        r <= 32,
{
    let w = first_word(digest);
    proof {
        vstd::std_specs::bits::axiom_u32_leading_zeros(w);
    }
    w.leading_zeros()
}

/// Whether `digest` meets `difficulty`.
pub fn digest_meets(digest: &[u8], difficulty: u32) -> (r: bool)
    requires
        digest@.len() >= 4,
    ensures
        r == meets_difficulty(digest@, difficulty as nat),
{
    digest_leading_zeros(digest) >= difficulty
}

/// Appends the bytes of `s` to `out`.
fn extend_bytes(out: &mut Vec<u8>, s: &[u8])
    ensures
        final(out)@ == old(out)@ + s@,
{
    let ghost base = out@;
    let mut i: usize = 0;
    while i < s.len()
        invariant
            i <= s@.len(),
            out@ == base + s@.subrange(0, i as int),
        decreases s@.len() - i,
    {
        proof {
            assert(s@.subrange(0, i + 1) =~= s@.subrange(0, i as int).push(s@[i as int]));
        }
        out.push(s[i]);
        i = i + 1;
    }
    proof {
        assert(s@.subrange(0, s@.len() as int) =~= s@);
    }
}

/// The digest of the salt bytes followed by the attempt bytes.
pub fn salted_digest(salt: &[u8], attempt: &[u8]) -> (r: Vec<u8>)
    ensures
        r@ == sha256_of(hash_input(salt@, attempt@)),
        r@.len() == 32,
{
    let mut input: Vec<u8> = Vec::new();
    extend_bytes(&mut input, salt);
    extend_bytes(&mut input, attempt);
    proof {
        assert(input@ =~= hash_input(salt@, attempt@));
    }
    sha256(input.as_slice())
}

/// Scores `attempt` under `salt`: the digest of the salt's UTF-8 bytes
/// followed by the attempt's, accepted when it meets `difficulty`; the
/// digest comes back as 64 lowercase hexadecimal characters.
pub fn evaluate_attempt(salt: &str, attempt: &str, difficulty: u32) -> (r: Evaluation)
    ensures
        r.accepted == meets_difficulty(
            sha256_of(hash_input(salt.spec_bytes(), attempt.spec_bytes())),
            difficulty as nat,
        ),
        r.hash_hex@ == hex_text(sha256_of(hash_input(salt.spec_bytes(), attempt.spec_bytes()))),
{
    evaluate_bytes(salt.as_bytes(), attempt.as_bytes(), difficulty)
}

/// Scores the attempt bytes `attempt` under the salt bytes `salt`.
pub fn evaluate_bytes(salt: &[u8], attempt: &[u8], difficulty: u32) -> (r: Evaluation)
    ensures
        r.accepted == meets_difficulty(sha256_of(hash_input(salt@, attempt@)), difficulty as nat),
        r.hash_hex@ == hex_text(sha256_of(hash_input(salt@, attempt@))),
{
    let digest = salted_digest(salt, attempt);
    let accepted = digest_meets(digest.as_slice(), difficulty);
    let hash_hex = hex_lower(digest.as_slice());
    Evaluation { accepted, hash_hex }
}

/// A digest meets `difficulty` exactly when its first four bytes, read
/// big-endian, are below 2^(32 - difficulty): its top `difficulty` bits are
/// zero.
pub proof fn lemma_difficulty_threshold(d: Seq<u8>, difficulty: nat)
    requires
        d.len() >= 4,
        difficulty <= 32,
    ensures
        meets_difficulty(d, difficulty) <==> be_word(d) < pow2((32 - difficulty) as nat),
{
    let (a, b, c, e) = (d[0] as nat, d[1] as nat, d[2] as nat, d[3] as nat);
    assert(a * 16777216 + b * 65536 + c * 256 + e < 0x1_0000_0000) by (nonlinear_arith)
        requires
            a < 256,
            b < 256,
            c < 256,
            e < 256,
    ;
    let x = be_word(d) as u32;
    assert(x as nat == be_word(d));
    vstd::std_specs::bits::axiom_u32_leading_zeros(x);
    let lz = u32_leading_zeros(x);
    vstd::arithmetic::power2::lemma2_to64();
    // Below 2^(32 - lz), the top lz bits being zero.
    if 0 < lz < 32 {
        let sh = (32 - lz) as u32;
        vstd::bits::lemma_u32_shr_is_div(x, sh);
        vstd::arithmetic::power2::lemma_pow2_pos(sh as nat);
        assert(x as nat / pow2(sh as nat) == 0);
        vstd::arithmetic::div_mod::lemma_fundamental_div_mod(x as int, pow2(sh as nat) as int);
    }
    assert((x as nat) < pow2((32 - lz) as nat));
    // At least 2^(31 - lz), bit 31 - lz being set.
    if lz < 32 {
        let sh = (31 - lz) as u32;
        let y = x >> sh;
        assert(y & 1u32 != 0u32 ==> y != 0u32) by (bit_vector);
        vstd::bits::lemma_u32_shr_is_div(x, sh);
        vstd::arithmetic::power2::lemma_pow2_pos(sh as nat);
        assert(x as nat / pow2(sh as nat) >= 1);
        vstd::arithmetic::div_mod::lemma_fundamental_div_mod(x as int, pow2(sh as nat) as int);
        assert(pow2(sh as nat) * (x as nat / pow2(sh as nat)) >= pow2(sh as nat)) by (nonlinear_arith)
            requires
                x as nat / pow2(sh as nat) >= 1,
                pow2(sh as nat) > 0,
        ;
        assert(x as nat >= pow2((31 - lz) as nat));
    }
    if lz as nat >= difficulty {
        if (lz as nat) > difficulty {
            vstd::arithmetic::power2::lemma_pow2_strictly_increases(
                (32 - lz) as nat,
                (32 - difficulty) as nat,
            );
        }
    } else {
        if 31 - lz > 32 - difficulty {
            vstd::arithmetic::power2::lemma_pow2_strictly_increases(
                (32 - difficulty) as nat,
                (31 - lz) as nat,
            );
        }
    }
}

} // verus!
