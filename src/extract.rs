//! Reading the challenge parameters out of a page.
//!
//! The page carries one call of the shape
//! `window.sssg_challenge("SALT", DIFFICULTY, TIMEOUT)`: optional whitespace
//! may stand around the parenthesis, the quotes and the commas; the salt is
//! one or more bytes that are not a quote (either `"` or `'` opens and
//! closes it); the difficulty and the timeout are runs of decimal digits.
//! Only the text of script elements is read: from the `>` that ends a
//! `<script` tag (the name in either case) to the next `</script` tag, or to
//! the end of the page. The page is read in order; comments (`<!--` to
//! `-->`) are passed over whole, and so is the text of each script element
//! that holds no call. The first call in the first script element that
//! holds one decides.
use vstd::prelude::*;
use vstd::string::StringSliceAdditionalSpecFns;
use vstd::utf8::{encode_utf8, is_char_boundary, valid_utf8};
use crate::attempt::{decimal_bytes, digit_byte};

verus! {

/// Why no challenge could be read from a page.
#[derive(Debug, PartialEq, Eq)]
pub enum ParseError {
    /// No script element of the page holds a call of the documented shape.
    ChallengeNotFound,
    /// The first call's difficulty, whose digits are given, is above 32.
    InvalidDifficulty(String),
}

/// Why extraction fails, over the page's bytes.
pub enum ExtractFailure {
    NotFound,
    /// The digits of the difficulty that was refused.
    BadDifficulty(Seq<u8>),
}

impl ParseError {
    /// A sentence that describes the error.
    pub fn message(&self) -> (r: String)
        ensures
            r@ == match self {
                ParseError::ChallengeNotFound => "SSSG challenge script not found in HTML"@,
                ParseError::InvalidDifficulty(token) => "Invalid value for challenge parameter 'difficulty: "@
                    + token@ + "'"@,
            },
    {
        match self {
            ParseError::ChallengeNotFound => String::from_str("SSSG challenge script not found in HTML"),
            ParseError::InvalidDifficulty(token) => String::from_str(
                "Invalid value for challenge parameter 'difficulty: ",
            ).concat(token.as_str()).concat("'"),
        }
    }
}

/// The largest difficulty that can be asked: only 32 bits are examined.
pub const MAX_DIFFICULTY: u32 = 32;

/// The bytes of `window.sssg_challenge`.
pub open spec fn call_prefix() -> Seq<u8> {
    seq![119u8, 105, 110, 100, 111, 119, 46, 115, 115, 115, 103, 95, 99, 104, 97, 108, 108, 101, 110, 103, 101]
}

/// Byte classes that the scanner skips over.
pub enum Class {
    Space,
    Digit,
    SaltByte,
    TagByte,
}

pub open spec fn is_quote(b: u8) -> bool {
    b == 34 || b == 39
}

pub open spec fn in_class(b: u8, c: Class) -> bool {
    match c {
        Class::Space => b == 32 || (9 <= b && b <= 13),
        Class::Digit => 48 <= b && b <= 57,
        Class::SaltByte => !is_quote(b),
        Class::TagByte => b != 62,
    }
}

/// The first index at or after `i` whose byte is not in class `c`.
pub open spec fn skip(t: Seq<u8>, i: int, c: Class) -> int
    decreases t.len() - i,
{
    if 0 <= i < t.len() && in_class(t[i], c) {
        skip(t, i + 1, c)
    } else {
        i
    }
}

/// Whether `t` holds byte `b` at index `i`.
pub open spec fn byte_at(t: Seq<u8>, i: int, b: u8) -> bool {
    0 <= i < t.len() && t[i] == b
}

pub open spec fn prefix_at(t: Seq<u8>, i: int) -> bool {
    0 <= i && i + call_prefix().len() <= t.len() && t.subrange(i, i + call_prefix().len())
        == call_prefix()
}

/// Where a call that starts at `i` has its salt and its difficulty digits
/// (`(salt_start, salt_end, digits_start, digits_end)`), if one starts there.
pub open spec fn call_at(t: Seq<u8>, i: int) -> Option<(int, int, int, int)> {
    let open_paren = skip(t, i + call_prefix().len(), Class::Space);
    let open_quote = skip(t, open_paren + 1, Class::Space);
    let s0 = open_quote + 1;
    let s1 = skip(t, s0, Class::SaltByte);
    let comma1 = skip(t, s1 + 1, Class::Space);
    let d0 = skip(t, comma1 + 1, Class::Space);
    let d1 = skip(t, d0, Class::Digit);
    let comma2 = skip(t, d1, Class::Space);
    let e0 = skip(t, comma2 + 1, Class::Space);
    let e1 = skip(t, e0, Class::Digit);
    let close_paren = skip(t, e1, Class::Space);
    if prefix_at(t, i) && byte_at(t, open_paren, 40) && 0 <= open_quote < t.len() && is_quote(
        t[open_quote],
    ) && s0 < s1 && s1 < t.len() && byte_at(t, comma1, 44) && d0 < d1 && byte_at(t, comma2, 44)
        && e0 < e1 && byte_at(t, close_paren, 41) {
        Some((s0, s1, d0, d1))
    } else {
        None
    }
}

/// The first index at or after `i` where a call starts.
pub open spec fn first_call(t: Seq<u8>, i: int) -> Option<int>
    decreases t.len() - i,
{
    if i < 0 || i >= t.len() {
        None
    } else if call_at(t, i) is Some {
        Some(i)
    } else {
        first_call(t, i + 1)
    }
}

/// The value of a run of decimal digits.
pub open spec fn digits_value(s: Seq<u8>) -> nat
    decreases s.len(),
{
    if s.len() == 0 {
        0
    } else {
        10 * digits_value(s.drop_last()) + (s.last() - 48) as nat
    }
}

/// What the first call in the script text `u` yields, if `u` holds one:
/// its salt bytes and difficulty, or the difficulty digits it refuses.
pub open spec fn call_in(u: Seq<u8>) -> Option<Result<(Seq<u8>, nat), ExtractFailure>> {
    match first_call(u, 0) {
        None => None,
        Some(p) => {
            let (s0, s1, d0, d1) = call_at(u, p).unwrap();
            let d = digits_value(u.subrange(d0, d1));
            if d > MAX_DIFFICULTY {
                Some(Err(ExtractFailure::BadDifficulty(u.subrange(d0, d1))))
            } else {
                Some(Ok((u.subrange(s0, s1), d)))
            }
        }
    }
}

/// The bytes of `<script`.
pub open spec fn script_open_tag() -> Seq<u8> {
    seq![60u8, 115, 99, 114, 105, 112, 116]
}

/// The bytes of `</script`.
pub open spec fn script_close_tag() -> Seq<u8> {
    seq![60u8, 47, 115, 99, 114, 105, 112, 116]
}

/// The bytes of `<!--`.
pub open spec fn comment_open_tag() -> Seq<u8> {
    seq![60u8, 33, 45, 45]
}

/// The bytes of `-->`.
pub open spec fn comment_close_tag() -> Seq<u8> {
    seq![45u8, 45, 62]
}

/// Byte `b` matches the pattern byte `p`, a lowercase letter in either case.
pub open spec fn ci_eq(b: u8, p: u8) -> bool {
    b == p || (97 <= p <= 122 && b == p - 32)
}

/// `t` holds `pat` at `i`, letters in either case.
pub open spec fn ci_at(t: Seq<u8>, i: int, pat: Seq<u8>) -> bool {
    0 <= i && i + pat.len() <= t.len() && forall|k: int|
        0 <= k < pat.len() ==> ci_eq(#[trigger] t[i + k], pat[k])
}

/// A byte that ends a tag name: `>`, `/` or whitespace.
pub open spec fn ends_tag_name(b: u8) -> bool {
    b == 62 || b == 47 || in_class(b, Class::Space)
}

/// A script element opens at `i`: `<script` followed by the end of the name.
pub open spec fn script_open_at(t: Seq<u8>, i: int) -> bool {
    ci_at(t, i, script_open_tag()) && i + 7 < t.len() && ends_tag_name(t[i + 7])
}

/// A script element closes at `i`: `</script` followed by the end of the name.
pub open spec fn script_close_at(t: Seq<u8>, i: int) -> bool {
    ci_at(t, i, script_close_tag()) && i + 8 < t.len() && ends_tag_name(t[i + 8])
}

/// Where the script text that starts at `k` ends: at the first closing
/// tag, or at the end of the page.
pub open spec fn block_end(t: Seq<u8>, k: int) -> int
    decreases t.len() - k,
{
    if k < 0 || k >= t.len() {
        t.len() as int
    } else if script_close_at(t, k) {
        k
    } else {
        block_end(t, k + 1)
    }
}

/// Where a comment whose text starts at `k` ends: just after the first
/// `-->`, or at the end of the page.
pub open spec fn comment_end(t: Seq<u8>, k: int) -> int
    decreases t.len() - k,
{
    if k < 0 || k >= t.len() {
        t.len() as int
    } else if ci_at(t, k, comment_close_tag()) {
        k + 3
    } else {
        comment_end(t, k + 1)
    }
}

/// One step of reading the page at `i`.
pub enum ScanStep {
    /// A script element opens at `i` and its text holds a call, which yields this.
    Found(Result<(Seq<u8>, nat), ExtractFailure>),
    /// Reading goes on at this index.
    Next(int),
    /// Nothing more can be found.
    End,
}

/// At `i`, a comment is passed over whole; a script element whose text
/// holds no call is passed over up to its closing tag; any other byte is
/// passed over alone.
pub open spec fn scan_step(t: Seq<u8>, i: int) -> ScanStep {
    if i < 0 || i >= t.len() {
        ScanStep::End
    } else if ci_at(t, i, comment_open_tag()) {
        ScanStep::Next(comment_end(t, i + 4))
    } else if script_open_at(t, i) {
        let g = skip(t, i + 7, Class::TagByte);
        if g >= t.len() {
            ScanStep::End
        } else {
            let e = block_end(t, g + 1);
            match call_in(t.subrange(g + 1, e)) {
                Some(r) => ScanStep::Found(r),
                None => ScanStep::Next(e),
            }
        }
    } else {
        ScanStep::Next(i + 1)
    }
}

/// The outcome of the first script element, read from `i` on, whose text
/// holds a call.
pub open spec fn script_scan(t: Seq<u8>, i: int) -> Option<Result<(Seq<u8>, nat), ExtractFailure>>
    decreases t.len() - i,
{
    match scan_step(t, i) {
        ScanStep::Found(r) => Some(r),
        ScanStep::End => None,
        ScanStep::Next(n) => if i < n <= t.len() {
            script_scan(t, n)
        } else {
            None
        },
    }
}

/// Reading from `i` arrives at `j` without finding a call.
pub open spec fn reaches(t: Seq<u8>, i: int, j: int) -> bool
    decreases j - i,
{
    if i == j {
        true
    } else if i < j {
        match scan_step(t, i) {
            ScanStep::Next(n) => i < n <= j && reaches(t, n, j),
            _ => false,
        }
    } else {
        false
    }
}

/// What extraction yields on the page bytes `t`: the salt bytes and the
/// difficulty of the first call in a script element, or why there are none.
pub open spec fn extraction(t: Seq<u8>) -> Result<(Seq<u8>, nat), ExtractFailure> {
    match script_scan(t, 0) {
        None => Err(ExtractFailure::NotFound),
        Some(r) => r,
    }
}

/// What `extract_challenge_params` returns stands for `extraction`.
pub open spec fn result_matches(
    r: Result<(String, u32), ParseError>,
    x: Result<(Seq<u8>, nat), ExtractFailure>,
) -> bool {
    match r {
        Ok((salt, d)) => x == Ok::<(Seq<u8>, nat), ExtractFailure>((encode_utf8(salt@), d as nat)),
        Err(ParseError::ChallengeNotFound) => x == Err::<(Seq<u8>, nat), ExtractFailure>(
            ExtractFailure::NotFound,
        ),
        Err(ParseError::InvalidDifficulty(token)) => x == Err::<(Seq<u8>, nat), ExtractFailure>(
            ExtractFailure::BadDifficulty(encode_utf8(token@)),
        ),
    }
}

fn in_class_exec(b: u8, c: &Class) -> (r: bool)
    ensures
        r == in_class(b, *c),
{
    match c {
        Class::Space => b == 32 || (9 <= b && b <= 13),
        Class::Digit => 48 <= b && b <= 57,
        Class::SaltByte => !(b == 34 || b == 39),
        Class::TagByte => b != 62,
    }
}

fn skip_exec(t: &[u8], i: usize, c: &Class) -> (r: usize)
    requires
        i <= t@.len(),
    ensures
        r as int == skip(t@, i as int, *c),
        i <= r <= t@.len(),
{
    let mut j: usize = i;
    while j < t.len() && in_class_exec(t[j], c)
        invariant
            i <= j <= t@.len(),
            skip(t@, j as int, *c) == skip(t@, i as int, *c),
        decreases t@.len() - j,
    {
        j = j + 1;
    }
    j
}

fn byte_at_exec(t: &[u8], i: usize, b: u8) -> (r: bool)
    ensures
        r == byte_at(t@, i as int, b),
{
    i < t.len() && t[i] == b
}

fn prefix_at_exec(t: &[u8], i: usize) -> (r: bool)
    ensures
        r == prefix_at(t@, i as int),
{
    let p: [u8; 21] = [119, 105, 110, 100, 111, 119, 46, 115, 115, 115, 103, 95, 99, 104, 97, 108, 108, 101, 110, 103, 101];
    assert(p@ =~= call_prefix());
    if i > t.len() || t.len() - i < 21 {
        return false;
    }
    let mut k: usize = 0;
    while k < 21
        invariant
            k <= 21,
            i + 21 <= t@.len() <= usize::MAX,
            p@ == call_prefix(),
            forall|m: int| 0 <= m < k ==> t@[i + m] == p@[m],
        decreases 21 - k,
    {
        if t[i + k] != p[k] {
            assert(t@.subrange(i as int, i + 21)[k as int] != call_prefix()[k as int]);
            return false;
        }
        k = k + 1;
    }
    assert(t@.subrange(i as int, i + 21) =~= call_prefix());
    true
}

/// Where the call that starts at `i` has its salt and difficulty, if one does.
fn call_at_exec(t: &[u8], i: usize) -> (r: Option<(usize, usize, usize, usize)>)
    requires
        i < t@.len(),
    ensures
        r is Some <==> call_at(t@, i as int) is Some,
        r matches Some(v) ==> call_at(t@, i as int) == Some(
            (v.0 as int, v.1 as int, v.2 as int, v.3 as int),
        ),
{
    if !prefix_at_exec(t, i) {
        return None;
    }
    let n = t.len();
    let open_paren = skip_exec(t, i + 21, &Class::Space);
    if !byte_at_exec(t, open_paren, 40) {
        return None;
    }
    let open_quote = skip_exec(t, open_paren + 1, &Class::Space);
    if !(open_quote < n && (t[open_quote] == 34 || t[open_quote] == 39)) {
        return None;
    }
    let s0 = open_quote + 1;
    let s1 = skip_exec(t, s0, &Class::SaltByte);
    if !(s0 < s1 && s1 < n) {
        return None;
    }
    let comma1 = skip_exec(t, s1 + 1, &Class::Space);
    if !byte_at_exec(t, comma1, 44) {
        return None;
    }
    let d0 = skip_exec(t, comma1 + 1, &Class::Space);
    let d1 = skip_exec(t, d0, &Class::Digit);
    if d0 >= d1 {
        return None;
    }
    let comma2 = skip_exec(t, d1, &Class::Space);
    if !byte_at_exec(t, comma2, 44) {
        return None;
    }
    let e0 = skip_exec(t, comma2 + 1, &Class::Space);
    let e1 = skip_exec(t, e0, &Class::Digit);
    if e0 >= e1 {
        return None;
    }
    let close_paren = skip_exec(t, e1, &Class::Space);
    if !byte_at_exec(t, close_paren, 41) {
        return None;
    }
    Some((s0, s1, d0, d1))
}

/// The value of the digit run `t[d0..d1]` when it is at most 32.
fn small_digits_value(t: &[u8], d0: usize, d1: usize) -> (r: Option<u32>)
    requires
        d0 <= d1 <= t@.len(),
        forall|k: int| d0 <= k < d1 ==> in_class(#[trigger] t@[k], Class::Digit),
    ensures
        r is Some <==> digits_value(t@.subrange(d0 as int, d1 as int)) <= MAX_DIFFICULTY,
        r matches Some(v) ==> v as nat == digits_value(t@.subrange(d0 as int, d1 as int)),
{
    // `v` is the value of the digits read so far, or 33 once that is above 32.
    let mut v: u32 = 0;
    let mut k: usize = d0;
    while k < d1
        invariant
            d0 <= k <= d1 <= t@.len(),
            forall|m: int| d0 <= m < d1 ==> in_class(#[trigger] t@[m], Class::Digit),
            v <= 33,
            v <= 32 ==> v as nat == digits_value(t@.subrange(d0 as int, k as int)),
            v == 33 ==> digits_value(t@.subrange(d0 as int, k as int)) > 32,
        decreases d1 - k,
    {
        let ghost prev = t@.subrange(d0 as int, k as int);
        let ghost next = t@.subrange(d0 as int, k + 1);
        assert(next.drop_last() =~= prev);
        assert(next.last() == t@[k as int]);
        let d = (t[k] - 48) as u32;
        if v <= 32 {
            let w = v * 10 + d;
            v = if w > 32 { 33 } else { w };
        }
        k = k + 1;
    }
    if v <= 32 {
        Some(v)
    } else {
        None
    }
}

/// A byte below 128 in valid UTF-8 is followed by a character boundary.
proof fn lemma_boundary_after_ascii(t: Seq<u8>, b: int)
    requires
        valid_utf8(t),
        0 <= b < t.len(),
        t[b] < 128,
    ensures
        is_char_boundary(t, b + 1),
{
    broadcast use vstd::utf8::group_utf8_lib;
    vstd::utf8::is_char_boundary_iff_not_is_continuation_byte(t, b);
    vstd::utf8::valid_utf8_split(t, b);
    let u = t.subrange(b, t.len() as int);
    assert(u[0] == t[b]);
    reveal_with_fuel(valid_utf8, 2);
    let rest = u.subrange(1, u.len() as int);
    assert(rest =~= t.subrange(b + 1, t.len() as int));
    if b + 1 < t.len() {
        vstd::utf8::is_char_boundary_start_end_of_seq(rest);
        vstd::utf8::is_char_boundary_iff_not_is_continuation_byte(rest, 0);
        vstd::utf8::is_char_boundary_iff_not_is_continuation_byte(t, b + 1);
    } else {
        vstd::utf8::is_char_boundary_start_end_of_seq(t);
    }
}

fn ci_at_exec(t: &[u8], i: usize, pat: &[u8]) -> (r: bool)
    ensures
        r == ci_at(t@, i as int, pat@),
{
    if i > t.len() || t.len() - i < pat.len() {
        return false;
    }
    let mut k: usize = 0;
    while k < pat.len()
        invariant
            k <= pat@.len(),
            i + pat@.len() <= t@.len() <= usize::MAX,
            forall|m: int| 0 <= m < k ==> ci_eq(#[trigger] t@[i + m], pat@[m]),
        decreases pat@.len() - k,
    {
        let b = t[i + k];
        let p = pat[k];
        if !(b == p || (97 <= p && p <= 122 && b == p - 32)) {
            assert(!ci_eq(t@[i + k as int], pat@[k as int]));
            return false;
        }
        k = k + 1;
    }
    true
}

fn ends_tag_name_exec(b: u8) -> (r: bool)
    ensures
        r == ends_tag_name(b),
{
    b == 62 || b == 47 || in_class_exec(b, &Class::Space)
}

fn script_open_at_exec(t: &[u8], i: usize) -> (r: bool)
    ensures
        r == script_open_at(t@, i as int),
{
    let open: [u8; 7] = [60, 115, 99, 114, 105, 112, 116];
    assert(open@ =~= script_open_tag());
    if i >= t.len() || t.len() - i <= 7 || !ci_at_exec(t, i, &open) {
        return false;
    }
    ends_tag_name_exec(t[i + 7])
}

fn script_close_at_exec(t: &[u8], i: usize) -> (r: bool)
    ensures
        r == script_close_at(t@, i as int),
{
    let close: [u8; 8] = [60, 47, 115, 99, 114, 105, 112, 116];
    assert(close@ =~= script_close_tag());
    if i >= t.len() || t.len() - i <= 8 || !ci_at_exec(t, i, &close) {
        return false;
    }
    ends_tag_name_exec(t[i + 8])
}

fn block_end_exec(t: &[u8], k: usize) -> (r: usize)
    requires
        k <= t@.len(),
    ensures
        r as int == block_end(t@, k as int),
        k <= r <= t@.len(),
{
    let mut j: usize = k;
    while j < t.len() && !script_close_at_exec(t, j)
        invariant
            k <= j <= t@.len(),
            block_end(t@, j as int) == block_end(t@, k as int),
        decreases t@.len() - j,
    {
        j = j + 1;
    }
    j
}

fn comment_end_exec(t: &[u8], k: usize) -> (r: usize)
    requires
        k <= t@.len(),
    ensures
        r as int == comment_end(t@, k as int),
        k <= r <= t@.len(),
{
    let close: [u8; 3] = [45, 45, 62];
    assert(close@ =~= comment_close_tag());
    let mut j: usize = k;
    while j < t.len()
        invariant
            k <= j <= t@.len(),
            close@ == comment_close_tag(),
            comment_end(t@, j as int) == comment_end(t@, k as int),
        decreases t@.len() - j,
    {
        if ci_at_exec(t, j, &close) {
            return j + 3;
        }
        j = j + 1;
    }
    j
}

fn comment_open_at_exec(t: &[u8], i: usize) -> (r: bool)
    ensures
        r == ci_at(t@, i as int, comment_open_tag()),
{
    let open: [u8; 4] = [60, 33, 45, 45];
    assert(open@ =~= comment_open_tag());
    ci_at_exec(t, i, &open)
}

/// Where the first call in `u` has its salt and difficulty.
fn find_call(u: &[u8]) -> (r: Option<(usize, usize, usize, usize)>)
    ensures
        r is None <==> first_call(u@, 0) is None,
        r matches Some(v) ==> first_call(u@, 0) matches Some(p) && call_at(u@, p) == Some(
            (v.0 as int, v.1 as int, v.2 as int, v.3 as int),
        ),
{
    let mut i: usize = 0;
    while i < u.len()
        invariant
            i <= u@.len(),
            first_call(u@, 0) == first_call(u@, i as int),
        decreases u@.len() - i,
    {
        match call_at_exec(u, i) {
            None => {
                i = i + 1;
            },
            Some(v) => {
                return Some(v);
            },
        }
    }
    None
}

/// What the first call in the script text `u` yields, with the salt, or the
/// refused difficulty digits, given by their place in `u`; each lies between
/// two ASCII bytes of `u`.
fn call_in_exec(u: &[u8]) -> (r: Option<Result<(usize, usize, u32), (usize, usize)>>)
    ensures
        r is None <==> call_in(u@) is None,
        r matches Some(Err((d0, d1))) ==> {
            &&& call_in(u@) == Some(
                Err::<(Seq<u8>, nat), ExtractFailure>(ExtractFailure::BadDifficulty(u@.subrange(d0 as int, d1 as int))),
            )
            &&& 0 < d0 <= d1 < u@.len()
            &&& u@[d0 - 1] < 128
            &&& u@[d1 as int] < 128
        },
        r matches Some(Ok((s0, s1, d))) ==> {
            &&& call_in(u@) == Some(Ok::<(Seq<u8>, nat), ExtractFailure>((u@.subrange(s0 as int, s1 as int), d as nat)))
            &&& 0 < s0 <= s1 < u@.len()
            &&& u@[s0 - 1] < 128
            &&& u@[s1 as int] < 128
        },
{
    match find_call(u) {
        None => None,
        Some((s0, s1, d0, d1)) => {
            proof {
                let p = first_call(u@, 0).unwrap();
                let comma1 = skip(u@, s1 + 1, Class::Space);
                let comma2 = skip(u@, d1 as int, Class::Space);
                assert forall|k: int| d0 <= k < d1 implies in_class(#[trigger] u@[k], Class::Digit) by {
                    lemma_skip_class(u@, d0 as int, k, Class::Digit);
                }
                lemma_skip_stops(u@, s0 as int, Class::SaltByte);
                lemma_skip_stops(u@, s1 + 1, Class::Space);
                lemma_skip_stops(u@, comma1 + 1, Class::Space);
                lemma_skip_stops(u@, d1 as int, Class::Space);
                if d0 > comma1 + 1 {
                    lemma_skip_class(u@, comma1 + 1, d0 - 1, Class::Space);
                }
                if comma2 > d1 {
                    lemma_skip_class(u@, d1 as int, d1 as int, Class::Space);
                }
            }
            match small_digits_value(u, d0, d1) {
                Some(d) => Some(Ok((s0, s1, d))),
                None => Some(Err((d0, d1))),
            }
        },
    }
}

/// The text of `html` from byte `a` to byte `b`, both next to ASCII bytes.
fn text_between(html: &str, a: usize, b: usize) -> (r: String)
    requires
        0 < a <= b < html.spec_bytes().len(),
        html.spec_bytes()[a - 1] < 128,
        html.spec_bytes()[b as int] < 128,
    ensures
        encode_utf8(r@) == html.spec_bytes().subrange(a as int, b as int),
{
    let ghost t = html.spec_bytes();
    proof {
        broadcast use vstd::utf8::group_utf8_lib;
        vstd::utf8::encode_utf8_valid_utf8(html@);
        lemma_boundary_after_ascii(t, a - 1);
    }
    let (_, rest) = html.split_at(a);
    proof {
        vstd::utf8::encode_utf8_valid_utf8(rest@);
        assert(rest.spec_bytes() =~= t.subrange(a as int, t.len() as int));
        assert(rest.spec_bytes()[b - a] == t[b as int]);
        vstd::utf8::is_char_boundary_iff_not_is_continuation_byte(rest.spec_bytes(), b - a);
    }
    let (piece, _) = rest.split_at(b - a);
    proof {
        assert(piece.spec_bytes() =~= t.subrange(a as int, b as int));
    }
    piece.to_owned()
}

/// The salt and difficulty of the first challenge call in a script element
/// of `html`.
///
/// Script elements are read in the order of the page, comments are passed
/// over, and the first call in the text of the first script element that
/// holds one decides. Fails with `ChallengeNotFound` when no script element
/// holds a call of the documented shape, and with `InvalidDifficulty`,
/// carrying the difficulty's digits, when that call's difficulty is above
/// 32. The timeout is read and left aside.
pub fn extract_challenge_params(html: &str) -> (r: Result<(String, u32), ParseError>)
    ensures
        result_matches(r, extraction(html.spec_bytes())),
{
    let t = html.as_bytes();
    let n = t.len();
    let mut i: usize = 0;
    while i < n
        invariant
            t@ == html.spec_bytes(),
            n == t@.len(),
            i <= n,
            script_scan(t@, 0) == script_scan(t@, i as int),
        decreases n - i,
    {
        let next: usize;
        if comment_open_at_exec(t, i) {
            next = comment_end_exec(t, i + 4);
        } else if script_open_at_exec(t, i) {
            let g = skip_exec(t, i + 7, &Class::TagByte);
            if g >= n {
                return Err(ParseError::ChallengeNotFound);
            }
            let e = block_end_exec(t, g + 1);
            let u = vstd::slice::slice_subrange(t, g + 1, e);
            match call_in_exec(u) {
                None => {
                    next = e;
                },
                Some(Err((d0, d1))) => {
                    proof {
                        assert(t@[g + 1 + d0 - 1] == u@[d0 - 1]);
                        assert(t@[g + 1 + d1] == u@[d1 as int]);
                    }
                    let token = text_between(html, g + 1 + d0, g + 1 + d1);
                    proof {
                        assert(t@.subrange(g + 1 + d0, g + 1 + d1) =~= u@.subrange(d0 as int, d1 as int));
                    }
                    return Err(ParseError::InvalidDifficulty(token));
                },
                Some(Ok((s0, s1, d))) => {
                    proof {
                        assert(t@[g + 1 + s0 - 1] == u@[s0 - 1]);
                        assert(t@[g + 1 + s1] == u@[s1 as int]);
                    }
                    let salt = text_between(html, g + 1 + s0, g + 1 + s1);
                    proof {
                        assert(t@.subrange(g + 1 + s0, g + 1 + s1) =~= u@.subrange(s0 as int, s1 as int));
                    }
                    return Ok((salt, d));
                },
            }
        } else {
            next = i + 1;
        }
        if next <= i {
            return Err(ParseError::ChallengeNotFound);
        }
        i = next;
    }
    Err(ParseError::ChallengeNotFound)
}

/// Every byte that `skip` passes over is in its class.
proof fn lemma_skip_class(t: Seq<u8>, i: int, k: int, c: Class)
    requires
        i <= k < skip(t, i, c),
    ensures
        in_class(t[k], c),
    decreases t.len() - i,
{
    if 0 <= i < t.len() && in_class(t[i], c) {
        if k > i {
            lemma_skip_class(t, i + 1, k, c);
        }
    }
}

/// `skip` stops at the end or at a byte outside its class.
proof fn lemma_skip_stops(t: Seq<u8>, i: int, c: Class)
    requires
        0 <= i,
    ensures
        i <= skip(t, i, c),
        0 <= skip(t, i, c) < t.len() ==> !in_class(t[skip(t, i, c)], c),
    decreases t.len() - i,
{
    if 0 <= i < t.len() && in_class(t[i], c) {
        lemma_skip_stops(t, i + 1, c);
    }
}

/// The text of the documented call with salt bytes `salt`, difficulty `d`
/// and timeout `timeout`: `window.sssg_challenge("salt", d, timeout);`.
pub open spec fn call_text(salt: Seq<u8>, d: nat, timeout: nat) -> Seq<u8> {
    call_prefix() + seq![40u8, 34u8] + salt + seq![34u8, 44u8, 32u8] + decimal_bytes(d) + seq![
        44u8,
        32u8,
    ] + decimal_bytes(timeout) + seq![41u8, 59u8]
}

/// `skip` from `i` stops at `j` when the bytes between are in the class and
/// the one at `j` is not (or `j` is the end).
proof fn lemma_skip_to(t: Seq<u8>, i: int, j: int, c: Class)
    requires
        0 <= i <= j <= t.len(),
        forall|k: int| i <= k < j ==> in_class(#[trigger] t[k], c),
        j < t.len() ==> !in_class(t[j], c),
    ensures
        skip(t, i, c) == j,
    decreases j - i,
{
    if i < j {
        lemma_skip_to(t, i + 1, j, c);
    }
}

/// The digits of `n` are digits, and read back as `n`.
proof fn lemma_decimal_digits(n: nat)
    ensures
        forall|k: int| 0 <= k < decimal_bytes(n).len() ==> in_class(#[trigger] decimal_bytes(n)[k], Class::Digit),
        decimal_bytes(n).len() >= 1,
        digits_value(decimal_bytes(n)) == n,
    decreases n,
{
    let s = decimal_bytes(n);
    if n >= 10 {
        lemma_decimal_digits(n / 10);
        assert(s.drop_last() =~= decimal_bytes(n / 10));
        assert(s.last() == digit_byte(n % 10));
        assert(digit_byte(n % 10) as nat == 48 + n % 10);
        assert(n == 10 * (n / 10) + n % 10);
        assert(digits_value(s) == 10 * digits_value(s.drop_last()) + (s.last() - 48) as nat);
    } else {
        assert(s.drop_last() =~= Seq::<u8>::empty());
        assert(s.last() == digit_byte(n));
        assert(digit_byte(n) as nat == 48 + n);
        assert(digits_value(s.drop_last()) == 0);
        assert(digits_value(s) == 10 * digits_value(s.drop_last()) + (s.last() - 48) as nat);
    }
}

/// The first call at or after `i` is at `p` when none starts before `p`.
proof fn lemma_first_call_at(t: Seq<u8>, i: int, p: int)
    requires
        0 <= i <= p < t.len(),
        call_at(t, p) is Some,
        forall|k: int| i <= k < p ==> #[trigger] call_at(t, k) is None,
    ensures
        first_call(t, i) == Some(p),
    decreases p - i,
{
    if i < p {
        lemma_first_call_at(t, i + 1, p);
    }
}

/// With no call anywhere at or after `i`, there is no first call.
proof fn lemma_no_call(t: Seq<u8>, i: int)
    requires
        0 <= i,
        forall|k: int| i <= k < t.len() ==> #[trigger] call_at(t, k) is None,
    ensures
        first_call(t, i) is None,
    decreases t.len() - i,
{
    if i < t.len() {
        lemma_no_call(t, i + 1);
    }
}

/// The skips of `call_at` over a documented call at `p` in `t`, whose salt
/// has `n` bytes and whose numbers have the digits `dd` and `tt`.
proof fn lemma_call_at_documented(t: Seq<u8>, p: int, n: int, dd: Seq<u8>, tt: Seq<u8>)
    requires
        0 <= p,
        n > 0,
        dd.len() > 0,
        tt.len() > 0,
        p + 30 + n + dd.len() + tt.len() <= t.len(),
        t.subrange(p, p + 21) == call_prefix(),
        t[p + 21] == 40,
        t[p + 22] == 34,
        forall|k: int| p + 23 <= k < p + 23 + n ==> in_class(#[trigger] t[k], Class::SaltByte),
        t[p + 23 + n] == 34,
        t[p + 24 + n] == 44,
        t[p + 25 + n] == 32,
        forall|k: int| 0 <= k < dd.len() ==> in_class(#[trigger] dd[k], Class::Digit),
        forall|k: int| 0 <= k < tt.len() ==> in_class(#[trigger] tt[k], Class::Digit),
        forall|k: int| p + 26 + n <= k < p + 26 + n + dd.len() ==> t[k] == dd[k - (p + 26 + n)],
        t[p + 26 + n + dd.len()] == 44,
        t[p + 27 + n + dd.len()] == 32,
        forall|k: int|
            p + 28 + n + dd.len() <= k < p + 28 + n + dd.len() + tt.len() ==> t[k] == tt[k - (p
                + 28 + n + dd.len())],
        t[p + 28 + n + dd.len() + tt.len()] == 41,
    ensures
        call_at(t, p) == Some((p + 23, p + 23 + n, p + 26 + n, p + 26 + n + dd.len())),
{
    let a = p + 21;
    let s0 = a + 2;
    let s1 = s0 + n;
    let d0 = s1 + 3;
    let d1 = d0 + dd.len();
    let e0 = d1 + 2;
    let e1 = e0 + tt.len();
    assert(t[d0] == dd[0]);
    assert(t[e0] == tt[0]);
    lemma_skip_to(t, a, a, Class::Space);
    lemma_skip_to(t, a + 1, a + 1, Class::Space);
    lemma_skip_to(t, s0, s1, Class::SaltByte);
    lemma_skip_to(t, s1 + 1, s1 + 1, Class::Space);
    lemma_skip_to(t, s1 + 2, d0, Class::Space);
    assert(in_class(t[d0], Class::Digit));
    assert forall|k: int| d0 <= k < d1 implies in_class(#[trigger] t[k], Class::Digit) by {
        assert(t[k] == dd[k - d0]);
    }
    lemma_skip_to(t, d0, d1, Class::Digit);
    lemma_skip_to(t, d1, d1, Class::Space);
    lemma_skip_to(t, d1 + 1, e0, Class::Space);
    assert(in_class(t[e0], Class::Digit));
    assert forall|k: int| e0 <= k < e1 implies in_class(#[trigger] t[k], Class::Digit) by {
        assert(t[k] == tt[k - e0]);
    }
    lemma_skip_to(t, e0, e1, Class::Digit);
    lemma_skip_to(t, e1, e1, Class::Space);
}

/// Where each part of the documented call stands in its text.
proof fn lemma_call_text_bytes(salt: Seq<u8>, d: nat, timeout: nat)
    ensures
        ({
            let u = call_text(salt, d, timeout);
            let n = salt.len() as int;
            let dl = decimal_bytes(d).len() as int;
            let tl = decimal_bytes(timeout).len() as int;
            &&& u.len() == 30 + n + dl + tl
            &&& forall|k: int| 0 <= k < 21 ==> u[k] == call_prefix()[k]
            &&& u[21] == 40 && u[22] == 34
            &&& forall|k: int| 0 <= k < n ==> #[trigger] u[23 + k] == salt[k]
            &&& u[23 + n] == 34 && u[24 + n] == 44 && u[25 + n] == 32
            &&& forall|k: int| 0 <= k < dl ==> #[trigger] u[26 + n + k] == decimal_bytes(d)[k]
            &&& u[26 + n + dl] == 44 && u[27 + n + dl] == 32
            &&& forall|k: int|
                0 <= k < tl ==> #[trigger] u[28 + n + dl + k] == decimal_bytes(timeout)[k]
            &&& u[28 + n + dl + tl] == 41
        }),
{
    let x1 = call_prefix() + seq![40u8, 34u8];
    let x2 = x1 + salt;
    let x3 = x2 + seq![34u8, 44u8, 32u8];
    let x4 = x3 + decimal_bytes(d);
    let x5 = x4 + seq![44u8, 32u8];
    let x6 = x5 + decimal_bytes(timeout);
    let u = x6 + seq![41u8, 59u8];
    assert(u == call_text(salt, d, timeout));
    let n = salt.len() as int;
    let dl = decimal_bytes(d).len() as int;
    let tl = decimal_bytes(timeout).len() as int;
    assert forall|k: int| 0 <= k < 21 implies u[k] == call_prefix()[k] by {
        assert(u[k] == x6[k] && x6[k] == x5[k] && x5[k] == x4[k] && x4[k] == x3[k]);
        assert(x3[k] == x2[k] && x2[k] == x1[k]);
    }
    assert(u[21] == x1[21] && u[22] == x1[22]);
    assert forall|k: int| 0 <= k < n implies #[trigger] u[23 + k] == salt[k] by {
        assert(u[23 + k] == x2[23 + k]);
    }
    assert(u[23 + n] == x3[23 + n] && u[24 + n] == x3[24 + n] && u[25 + n] == x3[25 + n]);
    assert forall|k: int| 0 <= k < dl implies #[trigger] u[26 + n + k] == decimal_bytes(d)[k] by {
        assert(u[26 + n + k] == x4[26 + n + k]);
    }
    assert(u[26 + n + dl] == x5[26 + n + dl] && u[27 + n + dl] == x5[27 + n + dl]);
    assert forall|k: int| 0 <= k < tl implies #[trigger] u[28 + n + dl + k] == decimal_bytes(
        timeout,
    )[k] by {
        assert(u[28 + n + dl + k] == x6[28 + n + dl + k]);
    }
}

/// `skip` in a part of `t` agrees with `skip` in `t` where it stops inside
/// the part.
proof fn lemma_skip_sub(t: Seq<u8>, a: int, b: int, i: int, c: Class)
    requires
        0 <= a <= i,
        a <= b <= t.len(),
    ensures
        skip(t.subrange(a, b), i - a, c) < b - a ==> skip(t, i, c) == skip(t.subrange(a, b), i - a, c)
            + a,
    decreases b - i,
{
    let u = t.subrange(a, b);
    if i - a < u.len() {
        assert(u[i - a] == t[i]);
        if in_class(u[i - a], c) {
            lemma_skip_sub(t, a, b, i + 1, c);
        }
    }
}

/// A call in a part of `t` is a call in `t`.
proof fn lemma_call_sub(t: Seq<u8>, a: int, b: int, p: int)
    requires
        0 <= a <= b <= t.len(),
        0 <= p,
        call_at(t.subrange(a, b), p) is Some,
    ensures
        call_at(t, a + p) is Some,
{
    let u = t.subrange(a, b);
    let open_paren = skip(u, p + 21, Class::Space);
    let open_quote = skip(u, open_paren + 1, Class::Space);
    let s0 = open_quote + 1;
    let s1 = skip(u, s0, Class::SaltByte);
    let comma1 = skip(u, s1 + 1, Class::Space);
    let d0 = skip(u, comma1 + 1, Class::Space);
    let d1 = skip(u, d0, Class::Digit);
    let comma2 = skip(u, d1, Class::Space);
    let e0 = skip(u, comma2 + 1, Class::Space);
    let e1 = skip(u, e0, Class::Digit);
    let close_paren = skip(u, e1, Class::Space);
    lemma_skip_stops(u, p + 21, Class::Space);
    lemma_skip_stops(u, open_paren + 1, Class::Space);
    lemma_skip_stops(u, s0, Class::SaltByte);
    lemma_skip_stops(u, s1 + 1, Class::Space);
    lemma_skip_stops(u, comma1 + 1, Class::Space);
    lemma_skip_stops(u, d0, Class::Digit);
    lemma_skip_stops(u, d1, Class::Space);
    lemma_skip_stops(u, comma2 + 1, Class::Space);
    lemma_skip_stops(u, e0, Class::Digit);
    lemma_skip_stops(u, e1, Class::Space);
    lemma_skip_sub(t, a, b, a + p + 21, Class::Space);
    lemma_skip_sub(t, a, b, a + open_paren + 1, Class::Space);
    lemma_skip_sub(t, a, b, a + s0, Class::SaltByte);
    lemma_skip_sub(t, a, b, a + s1 + 1, Class::Space);
    lemma_skip_sub(t, a, b, a + comma1 + 1, Class::Space);
    lemma_skip_sub(t, a, b, a + d0, Class::Digit);
    lemma_skip_sub(t, a, b, a + d1, Class::Space);
    lemma_skip_sub(t, a, b, a + comma2 + 1, Class::Space);
    lemma_skip_sub(t, a, b, a + e0, Class::Digit);
    lemma_skip_sub(t, a, b, a + e1, Class::Space);
    assert(t.subrange(a + p, a + p + 21) =~= u.subrange(p, p + 21));
    assert(t[a + open_paren] == u[open_paren]);
    assert(t[a + open_quote] == u[open_quote]);
    assert(t[a + comma1] == u[comma1]);
    assert(t[a + comma2] == u[comma2]);
    assert(t[a + close_paren] == u[close_paren]);
}

/// No part of a text without a call holds a call.
proof fn lemma_no_call_sub(t: Seq<u8>, a: int, b: int)
    requires
        0 <= a <= b <= t.len(),
        forall|k: int| 0 <= k < t.len() ==> #[trigger] call_at(t, k) is None,
    ensures
        call_in(t.subrange(a, b)) is None,
{
    let u = t.subrange(a, b);
    assert forall|k: int| 0 <= k < u.len() implies #[trigger] call_at(u, k) is None by {
        if call_at(u, k) is Some {
            lemma_call_sub(t, a, b, k);
            assert(call_at(t, a + k) is Some);
        }
    }
    lemma_no_call(u, 0);
}

proof fn lemma_scan_no_call(t: Seq<u8>, i: int)
    requires
        forall|k: int| 0 <= k < t.len() ==> #[trigger] call_at(t, k) is None,
    ensures
        script_scan(t, i) is None,
    decreases t.len() - i,
{
    if 0 <= i < t.len() && !ci_at(t, i, comment_open_tag()) && script_open_at(t, i) {
        let g = skip(t, i + 7, Class::TagByte);
        if g < t.len() {
            lemma_skip_stops(t, i + 7, Class::TagByte);
            lemma_block_end_bounds(t, g + 1);
            lemma_no_call_sub(t, g + 1, block_end(t, g + 1));
        }
    }
    match scan_step(t, i) {
        ScanStep::Next(n) => {
            if i < n <= t.len() {
                lemma_scan_no_call(t, n);
            }
        },
        _ => {},
    }
}

/// `block_end` from `k` lies between `k` and the end.
proof fn lemma_block_end_bounds(t: Seq<u8>, k: int)
    requires
        0 <= k <= t.len(),
    ensures
        k <= block_end(t, k) <= t.len(),
    decreases t.len() - k,
{
    if k < t.len() && !script_close_at(t, k) {
        lemma_block_end_bounds(t, k + 1);
    }
}

/// A page with no call of the documented shape anywhere yields
/// `ChallengeNotFound`.
pub proof fn lemma_absent_call_not_found(t: Seq<u8>)
    requires
        forall|k: int| 0 <= k < t.len() ==> #[trigger] call_at(t, k) is None,
    ensures
        extraction(t) == Err::<(Seq<u8>, nat), ExtractFailure>(ExtractFailure::NotFound),
{
    lemma_scan_no_call(t, 0);
}

/// Reading that arrives at `j` finds what reading from `j` finds.
proof fn lemma_scan_reaches(t: Seq<u8>, i: int, j: int)
    requires
        reaches(t, i, j),
    ensures
        script_scan(t, i) == script_scan(t, j),
    decreases j - i,
{
    if i < j {
        if let ScanStep::Next(n) = scan_step(t, i) {
            lemma_scan_reaches(t, n, j);
        }
    }
}

/// Where reading from `i` finds a call, it arrives at a script element
/// whose text holds it.
proof fn lemma_scan_witness(t: Seq<u8>, i: int) -> (j: int)
    requires
        script_scan(t, i) is Some,
    ensures
        reaches(t, i, j),
        scan_step(t, j) == ScanStep::Found(script_scan(t, i).unwrap()),
    decreases t.len() - i,
{
    match scan_step(t, i) {
        ScanStep::Next(n) => {
            let j = lemma_scan_witness(t, n);
            lemma_reaches_prepend(t, i, n, j);
            j
        },
        _ => i,
    }
}

proof fn lemma_reaches_prepend(t: Seq<u8>, i: int, n: int, j: int)
    requires
        scan_step(t, i) == ScanStep::Next(n),
        i < n,
        reaches(t, n, j),
    ensures
        reaches(t, i, j),
{
    lemma_reaches_order(t, n, j);
}

proof fn lemma_reaches_order(t: Seq<u8>, i: int, j: int)
    requires
        reaches(t, i, j),
    ensures
        i <= j,
    decreases j - i,
{
}

/// The first script element, in the order the page is read, whose text
/// holds a call decides: whatever the spacing of that call, and whatever
/// script elements without a call and comments come before it.
pub proof fn lemma_first_script_with_call_decides(t: Seq<u8>, i: int)
    requires
        reaches(t, 0, i),
        scan_step(t, i) is Found,
    ensures
        scan_step(t, i) == ScanStep::Found(extraction(t)),
{
    lemma_scan_reaches(t, 0, i);
}

/// Extraction yields `ChallengeNotFound` exactly when reading the page
/// arrives at no script element whose text holds a call.
pub proof fn lemma_not_found_iff_no_script_call(t: Seq<u8>)
    ensures
        extraction(t) == Err::<(Seq<u8>, nat), ExtractFailure>(ExtractFailure::NotFound) <==> forall|
            i: int,
        | #[trigger] reaches(t, 0, i) ==> !(scan_step(t, i) is Found),
{
    if script_scan(t, 0) is Some {
        let j = lemma_scan_witness(t, 0);
        let r = script_scan(t, 0).unwrap();
        assert(reaches(t, 0, j));
        // What a script element yields is never `NotFound`.
        assert(r != Err::<(Seq<u8>, nat), ExtractFailure>(ExtractFailure::NotFound));
    } else {
        assert forall|i: int| #[trigger] reaches(t, 0, i) implies !(scan_step(t, i) is Found) by {
            if scan_step(t, i) is Found {
                lemma_scan_reaches(t, 0, i);
            }
        }
    }
}

/// Script text that holds the documented call with salt `salt` and
/// difficulty `d <= 32`, after text `pre` in which no call starts, yields
/// exactly that salt and that difficulty, whatever follows.
#[verifier::rlimit(40)]
pub proof fn lemma_reads_documented_call(
    pre: Seq<u8>,
    salt: Seq<u8>,
    d: nat,
    timeout: nat,
    post: Seq<u8>,
)
    requires
        salt.len() > 0,
        forall|k: int| 0 <= k < salt.len() ==> !is_quote(#[trigger] salt[k]),
        d <= MAX_DIFFICULTY,
        forall|k: int|
            0 <= k < pre.len() ==> #[trigger] call_at(pre + call_text(salt, d, timeout) + post, k) is None,
    ensures
        call_in(pre + call_text(salt, d, timeout) + post) == Some(
            Ok::<(Seq<u8>, nat), ExtractFailure>((salt, d)),
        ),
{
    let dd = decimal_bytes(d);
    let tt = decimal_bytes(timeout);
    let u = call_text(salt, d, timeout);
    let t = pre + u + post;
    lemma_decimal_digits(d);
    lemma_decimal_digits(timeout);
    lemma_call_text_bytes(salt, d, timeout);
    let p = pre.len() as int;
    let a = p + 21;
    let s0 = a + 2;
    let s1 = s0 + salt.len();
    let d0 = s1 + 3;
    let d1 = d0 + dd.len();
    let e0 = d1 + 2;
    let e1 = e0 + tt.len();
    assert forall|k: int| 0 <= k < u.len() implies #[trigger] t[p + k] == u[k] by {}
    assert(t.subrange(p, p + 21) =~= call_prefix()) by {
        assert forall|k: int| 0 <= k < 21 implies t.subrange(p, p + 21)[k] == call_prefix()[k] by {
            assert(t[p + k] == u[k]);
        }
    }
    assert(t[a] == 40) by { assert(t[p + 21] == u[21]); }
    assert(t[a + 1] == 34) by { assert(t[p + 22] == u[22]); }
    assert forall|k: int| s0 <= k < s1 implies in_class(#[trigger] t[k], Class::SaltByte) by {
        assert(t[p + (k - p)] == u[k - p]);
        assert(u[23 + (k - s0)] == salt[k - s0]);
    }
    assert(t[s1] == 34) by { assert(t[p + (s1 - p)] == u[s1 - p]); }
    assert(t[s1 + 1] == 44) by { assert(t[p + (s1 + 1 - p)] == u[s1 + 1 - p]); }
    assert(t[s1 + 2] == 32) by { assert(t[p + (s1 + 2 - p)] == u[s1 + 2 - p]); }
    assert forall|k: int| d0 <= k < d1 implies t[k] == dd[k - d0] by {
        assert(t[p + (k - p)] == u[k - p]);
        assert(u[(s1 - p + 3) + (k - d0)] == dd[k - d0]);
    }
    assert(t[d1] == 44) by { assert(t[p + (d1 - p)] == u[d1 - p]); }
    assert(t[d1 + 1] == 32) by { assert(t[p + (d1 + 1 - p)] == u[d1 + 1 - p]); }
    assert forall|k: int| e0 <= k < e1 implies t[k] == tt[k - e0] by {
        assert(t[p + (k - p)] == u[k - p]);
        assert(u[(d1 - p + 2) + (k - e0)] == tt[k - e0]);
    }
    assert(t[e1] == 41) by { assert(t[p + (e1 - p)] == u[e1 - p]); }
    lemma_call_at_documented(t, p, salt.len() as int, dd, tt);
    lemma_first_call_at(t, 0, p);
    assert(t.subrange(d0, d1) =~= dd);
    assert(t.subrange(s0, s1) =~= salt);
}

/// The bytes of `<script>`.
pub open spec fn script_start_tag() -> Seq<u8> {
    script_open_tag().push(62u8)
}

proof fn lemma_block_end_passes(t: Seq<u8>, k: int, j: int)
    requires
        0 <= k <= j <= t.len(),
        forall|m: int| k <= m < j ==> t[m] != 60,
    ensures
        block_end(t, k) == block_end(t, j),
    decreases j - k,
{
    if k < j {
        assert(!script_close_at(t, k)) by {
            if script_close_at(t, k) {
                assert(ci_eq(t[k + 0], script_close_tag()[0]));
            }
        }
        lemma_block_end_passes(t, k + 1, j);
    }
}

/// No byte of the documented call is `<` when its salt has none.
proof fn lemma_call_text_no_angle(salt: Seq<u8>, d: nat, timeout: nat)
    requires
        forall|k: int| 0 <= k < salt.len() ==> #[trigger] salt[k] != 60,
    ensures
        forall|k: int| 0 <= k < call_text(salt, d, timeout).len() ==> #[trigger] call_text(
            salt,
            d,
            timeout,
        )[k] != 60,
{
    let u = call_text(salt, d, timeout);
    lemma_call_text_bytes(salt, d, timeout);
    lemma_decimal_digits(d);
    lemma_decimal_digits(timeout);
    let n = salt.len() as int;
    let dl = decimal_bytes(d).len() as int;
    let tl = decimal_bytes(timeout).len() as int;
    assert forall|k: int| 0 <= k < u.len() implies #[trigger] u[k] != 60 by {
        if k < 21 {
            assert(u[k] == call_prefix()[k]);
        } else if k < 23 {
        } else if k < 23 + n {
            assert(u[23 + (k - 23)] == salt[k - 23]);
        } else if k < 26 + n {
        } else if k < 26 + n + dl {
            assert(u[26 + n + (k - 26 - n)] == decimal_bytes(d)[k - 26 - n]);
            assert(in_class(decimal_bytes(d)[k - 26 - n], Class::Digit));
        } else if k < 28 + n + dl {
        } else if k < 28 + n + dl + tl {
            assert(u[28 + n + dl + (k - 28 - n - dl)] == decimal_bytes(timeout)[k - 28 - n - dl]);
            assert(in_class(decimal_bytes(timeout)[k - 28 - n - dl], Class::Digit));
        } else if k == 28 + n + dl + tl {
        } else {
            assert(u == call_prefix() + seq![40u8, 34u8] + salt + seq![34u8, 44u8, 32u8]
                + decimal_bytes(d) + seq![44u8, 32u8] + decimal_bytes(timeout) + seq![41u8, 59u8]);
            assert(u[k] == 59);
        }
    }
}

/// A page that reading carries to a `<script>` tag right after `pre`,
/// whose text opens with the documented call with salt `salt` and
/// difficulty `d <= 32`, yields exactly that salt and that difficulty,
/// whatever follows.
pub proof fn lemma_extracts_documented_call(
    pre: Seq<u8>,
    salt: Seq<u8>,
    d: nat,
    timeout: nat,
    post: Seq<u8>,
)
    requires
        salt.len() > 0,
        forall|k: int| 0 <= k < salt.len() ==> !is_quote(#[trigger] salt[k]) && salt[k] != 60,
        d <= MAX_DIFFICULTY,
        reaches(pre + script_start_tag() + call_text(salt, d, timeout) + post, 0, pre.len() as int),
    ensures
        extraction(pre + script_start_tag() + call_text(salt, d, timeout) + post) == Ok::<
            (Seq<u8>, nat),
            ExtractFailure,
        >((salt, d)),
{
    let u = call_text(salt, d, timeout);
    let t = pre + script_start_tag() + u + post;
    let p = pre.len() as int;
    let c0 = p + 8;
    let c1 = c0 + u.len();
    assert forall|k: int| 0 <= k < 8 implies t[p + k] == script_start_tag()[k] by {}
    assert forall|k: int| 0 <= k < u.len() implies t[c0 + k] == u[k] by {}
    assert(ci_at(t, p, script_open_tag())) by {
        assert forall|k: int| 0 <= k < 7 implies ci_eq(#[trigger] t[p + k], script_open_tag()[k]) by {
            assert(t[p + k] == script_start_tag()[k]);
        }
    }
    assert(!ci_at(t, p, comment_open_tag())) by {
        assert(t[p + 1] == script_start_tag()[1]);
        if ci_at(t, p, comment_open_tag()) {
            assert(ci_eq(t[p + 1], comment_open_tag()[1]));
        }
    }
    assert(t[p + 7] == 62) by {
        assert(t[p + 7] == script_start_tag()[7]);
    }
    assert(script_open_at(t, p));
    assert(skip(t, p + 7, Class::TagByte) == p + 7);
    assert forall|k: int| 0 <= k < salt.len() implies #[trigger] salt[k] != 60 by {}
    lemma_call_text_no_angle(salt, d, timeout);
    assert forall|m: int| c0 <= m < c1 implies t[m] != 60 by {
        assert(t[c0 + (m - c0)] == u[m - c0]);
    }
    lemma_block_end_passes(t, c0, c1);
    lemma_block_end_bounds(t, c1);
    let e = block_end(t, c0);
    let x = t.subrange(c1, e);
    assert(t.subrange(c0, e) =~= Seq::<u8>::empty() + u + x);
    lemma_reads_documented_call(Seq::<u8>::empty(), salt, d, timeout, x);
    lemma_first_script_with_call_decides(t, p);
}

} // verus!
