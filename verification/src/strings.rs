//! Text that is shown: decimal numbers, padding, and the text of bytes that
//! need not be UTF-8.
use vstd::prelude::*;
use vstd::string::*;

verus! {

/// What `String::from_utf8_lossy` makes of `bytes`.
pub uninterp spec fn lossy_text(bytes: Seq<u8>) -> Seq<char>;

/// Bytes that are UTF-8 have the text that they encode.
pub open spec fn text_known(bytes: Seq<u8>) -> bool {
    vstd::utf8::valid_utf8(bytes) ==> lossy_text(bytes) == vstd::utf8::decode_utf8(bytes)
}

/// `String::from_utf8_lossy`: the text of `bytes`, with U+FFFD in place of
/// what is not UTF-8. Bytes that are UTF-8 give the text that they encode.
#[verifier::external_body]
pub(crate) fn lossy(bytes: &[u8]) -> (r: String)
    ensures
        r@ == lossy_text(bytes@),
        vstd::utf8::valid_utf8(bytes@) ==> r@ == vstd::utf8::decode_utf8(bytes@),
{
    String::from_utf8_lossy(bytes).into_owned()
}

/// `String::push`: the character is appended.
pub assume_specification[ String::push ](s: &mut String, c: char)
    ensures
        final(s)@ == old(s)@.push(c),
;

/// The two texts are the same.
pub fn same(a: &str, b: &str) -> (r: bool)
    ensures
        r == (a@ == b@),
{
    a.to_owned() == b.to_owned()
}

/// The characters of `s`.
pub fn chars_of(s: &str) -> (r: Vec<char>)
    ensures
        r@ == s@,
{
    let mut r: Vec<char> = Vec::new();
    for c in it: s.chars()
        invariant
            it.seq() == s@,
            r@ == s@.take(it.index()),
    {
        r.push(c);
        assert(r@ =~= s@.take(it.index() + 1));
    }
    assert(s@.take(s@.len() as int) =~= s@);
    r
}

/// The character of a decimal digit.
pub open spec fn digit_char(d: int) -> char {
    (0x30 + d) as char
}

/// `n` in decimal.
pub open spec fn decimal_text(n: nat) -> Seq<char>
    decreases n,
{
    if n < 10 {
        seq![digit_char(n as int)]
    } else {
        decimal_text(n / 10).push(digit_char((n % 10) as int))
    }
}

/// `n` in decimal.
pub fn decimal(n: u64) -> (r: String)
    ensures
        r@ == decimal_text(n as nat),
    decreases n,
{
    let mut s: String = if n < 10 {
        String::new()
    } else {
        decimal(n / 10)
    };
    let d: u8 = 0x30 + (n % 10) as u8;
    s.push(d as char);
    assert(s@ =~= decimal_text(n as nat));
    s
}

/// `n` in decimal, behind a sign where it is negative.
pub open spec fn signed_text(n: int) -> Seq<char> {
    if n < 0 {
        seq!['-'] + decimal_text((-n) as nat)
    } else {
        decimal_text(n as nat)
    }
}

/// `n` in decimal, behind a sign where it is negative.
pub fn signed_decimal(n: i64) -> (r: String)
    ensures
        r@ == signed_text(n as int),
{
    if n < 0 {
        let mut s: String = String::new();
        s.push('-');
        let magnitude: u64 = (-(n as i128)) as u64;
        s.append(decimal(magnitude).as_str());
        assert(s@ =~= signed_text(n as int));
        s
    } else {
        decimal(n as u64)
    }
}

/// `n` spaces.
pub open spec fn spaces(n: int) -> Seq<char> {
    Seq::new(if n > 0 { n as nat } else { 0 }, |i: int| ' ')
}

/// `t` behind as many spaces as bring it to `width` characters.
pub open spec fn right_aligned(t: Seq<char>, width: int) -> Seq<char> {
    spaces(width - t.len()) + t
}

/// Append `t` to `s`, behind as many spaces as bring it to `width` characters.
pub fn push_right_aligned(s: &mut String, t: &str, width: usize)
    ensures
        final(s)@ == old(s)@ + right_aligned(t@, width as int),
{
    let ghost before = s@;
    let len: usize = t.unicode_len();
    let mut i: usize = len;
    assert(s@ =~= before + spaces(0));
    while i < width
        invariant
            len <= i,
            i <= width || i == len,
            len == t@.len(),
            s@ == before + spaces(i - len),
        decreases width - i,
    {
        s.push(' ');
        i = i + 1;
        assert(s@ =~= before + spaces(i - len));
    }
    s.append(t);
    assert(s@ =~= before + right_aligned(t@, width as int));
}

} // verus!
