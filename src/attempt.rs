//! Attempt values and their exact textual form.
//!
//! An attempt value is a non-negative multiple of one half, held as the
//! number of halves it contains: `h` stands for `h / 2`. Every such value
//! below 2^52, and every integer below 2^53, is an exactly representable
//! double, and its shortest round-trip decimal text is the integer part in
//! decimal, followed by `.5` when the value is not whole.
use vstd::prelude::*;
use vstd::utf8::{encode_utf8, is_ascii_chars};
use vstd::string::StringExecFns;
use rand::Rng;

verus! {

/// Values at or above this many halves (2^53, the value 2^52) are whole only.
pub const WHOLE_ONLY_HALVES: u64 = 0x20_0000_0000_0000;

/// One past the largest attempt value in halves (2^54, the value 2^53).
pub const HALVES_LIMIT: u64 = 0x40_0000_0000_0000;

/// Whether `h` halves name a value that a double holds exactly, in [0, 2^53).
pub open spec fn representable(h: nat) -> bool {
    h < HALVES_LIMIT && (h >= WHOLE_ONLY_HALVES ==> h % 2 == 0)
}

/// The ASCII digit for `d < 10`.
pub open spec fn digit_byte(d: nat) -> u8 {
    (48 + d) as u8
}

/// Decimal digits of `n`, most significant first, with no leading zero.
pub open spec fn decimal_bytes(n: nat) -> Seq<u8>
    decreases n,
{
    if n < 10 {
        seq![digit_byte(n)]
    } else {
        decimal_bytes(n / 10).push(digit_byte(n % 10))
    }
}

/// The text of the value of `h` halves, as its bytes.
pub open spec fn attempt_bytes(h: nat) -> Seq<u8> {
    if h % 2 == 0 {
        decimal_bytes(h / 2)
    } else {
        decimal_bytes(h / 2) + seq![46u8, 53u8]
    }
}

/// Bytes read as characters, one for one.
pub open spec fn ascii_chars(b: Seq<u8>) -> Seq<char> {
    Seq::new(b.len(), |i: int| b[i] as char)
}

pub open spec fn all_ascii(b: Seq<u8>) -> bool {
    forall|i: int| 0 <= i < b.len() ==> #[trigger] b[i] < 128
}

proof fn lemma_decimal_ascii(n: nat)
    ensures
        all_ascii(decimal_bytes(n)),
        decimal_bytes(n).len() >= 1,
    decreases n,
{
    if n >= 10 {
        lemma_decimal_ascii(n / 10);
    }
}

proof fn lemma_decimal_digit_bytes(n: nat)
    ensures
        forall|i: int| 0 <= i < decimal_bytes(n).len() ==> 48 <= #[trigger] decimal_bytes(n)[i] <= 57,
    decreases n,
{
    let s = decimal_bytes(n);
    if n >= 10 {
        lemma_decimal_digit_bytes(n / 10);
        assert(digit_byte(n % 10) as nat == 48 + n % 10);
        assert forall|i: int| 0 <= i < s.len() implies 48 <= #[trigger] s[i] <= 57 by {
            if i < s.len() - 1 {
                assert(s[i] == decimal_bytes(n / 10)[i]);
            }
        }
    } else {
        assert(digit_byte(n) as nat == 48 + n);
    }
}

proof fn lemma_attempt_digits(h: nat)
    ensures
        forall|i: int| 0 <= i < attempt_bytes(h).len() ==> 48 <= #[trigger] attempt_bytes(h)[i] <= 57
            || attempt_bytes(h)[i] == 46,
{
    lemma_decimal_digit_bytes(h / 2);
}

pub proof fn lemma_attempt_ascii(h: nat)
    ensures
        all_ascii(attempt_bytes(h)),
        attempt_bytes(h).len() >= 1,
{
    lemma_decimal_ascii(h / 2);
}

/// The UTF-8 bytes of ASCII text are the bytes it was read from.
pub proof fn lemma_ascii_round_trip(b: Seq<u8>)
    requires
        all_ascii(b),
    ensures
        encode_utf8(ascii_chars(b)) == b,
{
    let c = ascii_chars(b);
    assert(is_ascii_chars(c));
    vstd::utf8::is_ascii_chars_encode_utf8(c);
    assert forall|i: int| 0 <= i < b.len() implies encode_utf8(c)[i] == b[i] by {
        assert(c[i] as u8 == b[i]);
    }
    assert(encode_utf8(c) =~= b);
}

/// The one-character text of a digit or a point.
fn ascii_piece(b: u8) -> (r: &'static str)
    requires
        48 <= b <= 57 || b == 46,
    ensures
        r@ == seq![b as char],
{
    match b {
        48 => {
            proof {
                reveal_strlit("0");
            }
            "0"
        },
        49 => {
            proof {
                reveal_strlit("1");
            }
            "1"
        },
        50 => {
            proof {
                reveal_strlit("2");
            }
            "2"
        },
        51 => {
            proof {
                reveal_strlit("3");
            }
            "3"
        },
        52 => {
            proof {
                reveal_strlit("4");
            }
            "4"
        },
        53 => {
            proof {
                reveal_strlit("5");
            }
            "5"
        },
        54 => {
            proof {
                reveal_strlit("6");
            }
            "6"
        },
        55 => {
            proof {
                reveal_strlit("7");
            }
            "7"
        },
        56 => {
            proof {
                reveal_strlit("8");
            }
            "8"
        },
        57 => {
            proof {
                reveal_strlit("9");
            }
            "9"
        },
        _ => {
            proof {
                reveal_strlit(".");
            }
            "."
        },
    }
}

/// The text whose characters are the bytes `b`, each a digit or a point.
fn string_from_ascii(b: &Vec<u8>) -> (r: String)
    requires
        forall|i: int| 0 <= i < b@.len() ==> 48 <= #[trigger] b@[i] <= 57 || b@[i] == 46,
    ensures
        r@ == ascii_chars(b@),
{
    let mut out = String::new();
    let mut i: usize = 0;
    while i < b.len()
        invariant
            i <= b@.len(),
            forall|k: int| 0 <= k < b@.len() ==> 48 <= #[trigger] b@[k] <= 57 || b@[k] == 46,
            out@ == ascii_chars(b@.subrange(0, i as int)),
        decreases b@.len() - i,
    {
        let piece = ascii_piece(b[i]);
        out.append(piece);
        i = i + 1;
        proof {
            assert(out@ =~= ascii_chars(b@.subrange(0, i as int)));
        }
    }
    proof {
        assert(b@.subrange(0, b@.len() as int) =~= b@);
    }
    out
}

/// Appends the decimal digits of `n` to `out`.
fn push_decimal(out: &mut Vec<u8>, n: u64)
    ensures
        final(out)@ == old(out)@ + decimal_bytes(n as nat),
{
    let mut rev: Vec<u8> = Vec::new();
    let mut m: u64 = n;
    while m >= 10
        invariant
            decimal_bytes(n as nat) == decimal_bytes(m as nat) + rev@.reverse(),
        decreases m,
    {
        let d = digit_u8(m % 10);
        proof {
            assert(rev@.push(d).reverse() =~= seq![d] + rev@.reverse());
            assert(decimal_bytes(m as nat) == decimal_bytes((m / 10) as nat).push(d));
            assert(decimal_bytes((m / 10) as nat).push(d) + rev@.reverse()
                =~= decimal_bytes((m / 10) as nat) + (seq![d] + rev@.reverse()));
        }
        rev.push(d);
        m = m / 10;
    }
    let d = digit_u8(m);
    proof {
        assert(rev@.push(d).reverse() =~= seq![d] + rev@.reverse());
    }
    rev.push(d);
    let ghost base = out@;
    let mut i: usize = rev.len();
    while i > 0
        invariant
            i <= rev@.len(),
            out@ == base + rev@.subrange(i as int, rev@.len() as int).reverse(),
        decreases i,
    {
        i = i - 1;
        proof {
            assert(rev@.subrange(i as int, rev@.len() as int).reverse() =~= rev@.subrange(
                i + 1,
                rev@.len() as int,
            ).reverse().push(rev@[i as int]));
        }
        out.push(rev[i]);
    }
    proof {
        assert(rev@.subrange(0, rev@.len() as int) =~= rev@);
    }
}

fn digit_u8(d: u64) -> (r: u8)
    requires
        d < 10,
    ensures
        r == digit_byte(d as nat),
{
    48 + d as u8
}

/// The text of the attempt value of `halves` halves, as the verifying side
/// writes that number: `"12"` for 12, `"12.5"` for 12.5, `"0"` for 0.
pub fn format_attempt(halves: u64) -> (r: String)
    ensures
        r@ == ascii_chars(attempt_bytes(halves as nat)),
        encode_utf8(r@) == attempt_bytes(halves as nat),
{
    let b = attempt_text_bytes(halves);
    proof {
        lemma_attempt_ascii(halves as nat);
        lemma_ascii_round_trip(b@);
        lemma_attempt_digits(halves as nat);
    }
    string_from_ascii(&b)
}

/// The bytes of the text of the attempt value of `halves` halves.
pub fn attempt_text_bytes(halves: u64) -> (r: Vec<u8>)
    ensures
        r@ == attempt_bytes(halves as nat),
{
    let mut out: Vec<u8> = Vec::new();
    push_decimal(&mut out, halves / 2);
    if halves % 2 == 1 {
        out.push(46u8);
        out.push(53u8);
    }
    proof {
        assert(out@ =~= attempt_bytes(halves as nat));
    }
    out
}

/// Relies on `rand::Rng::gen_range` over `rand::thread_rng()`: a value drawn
/// from `0..bound`, which it asserts is not empty.
#[verifier::external_body]
fn random_below(bound: u64) -> (r: u64)
    requires
        bound > 0,
    ensures
        r < bound,
{
    rand::thread_rng().gen_range(0..bound)
}

/// A random starting attempt value, drawn evenly from the halves below 2^53:
/// a value in [0, 2^52) with a fractional part of 0 or .5, as a uniform
/// double scaled by 2^52 gives.
pub fn generate_initial_attempt_nonce_seed() -> (r: u64)
    ensures
        r < WHOLE_ONLY_HALVES,
        representable(r as nat),
{
    random_below(WHOLE_ONLY_HALVES)
}

} // verus!
