//! Locale-aware character classification for word counting.
//!
//! POSIX defines a word as a string delimited by white space and leaves the
//! definition of white space to `LC_CTYPE` (`iswspace`). In a UTF-8 locale
//! glibc's `iswspace` is true for exactly:
//!
//!     U+0009..U+000D, U+0020, U+1680, U+2000..U+2006,
//!     U+2008..U+200A, U+2028..U+2029, U+205F, U+3000
//!
//! GNU wc additionally treats U+00A0, U+2007, U+202F and U+2060 as delimiters
//! unless POSIXLY_CORRECT is set. In a unibyte locale each byte stands for the
//! ISO-8859-1 character of the same number, so byte 0xA0 is a delimiter there
//! too.
use crate::text;
use crate::text::Unit;
use vstd::prelude::*;

verus! {

/// How the bytes of a text are read as characters, and which of the
/// characters delimit words.
#[derive(Clone, Copy, PartialEq, Eq, Debug, Structural)]
pub struct WsMode {
    /// False in unibyte locales such as LC_ALL=C, where each byte is a
    /// character and multi-byte sequences are never decoded.
    pub unicode: bool,
    /// GNU extension, disabled by POSIXLY_CORRECT.
    pub nbsp: bool,
}

impl WsMode {
    /// The mode of an environment: `mb_cur_max` is the greatest number of
    /// bytes in a character of the locale that is in force, `posixly_correct`
    /// tells whether the variable POSIXLY_CORRECT is set.
    pub fn from_env(mb_cur_max: usize, posixly_correct: bool) -> (mode: WsMode)
        ensures
            mode.unicode == (mb_cur_max > 1),
            mode.nbsp == !posixly_correct,
    {
        WsMode { unicode: mb_cur_max > 1, nbsp: !posixly_correct }
    }
}

/// Lead byte of U+00A0.
pub const LEAD_C2: u8 = 0xC2;

/// Lead byte of U+1680.
pub const LEAD_E1: u8 = 0xE1;

/// Lead byte of the U+2000..U+206F block.
pub const LEAD_E2: u8 = 0xE2;

/// Lead byte of U+3000.
pub const LEAD_E3: u8 = 0xE3;

/// Byte 0xA0, a delimiter in unibyte locales unless POSIXLY_CORRECT.
pub const NBSP_BYTE: u8 = 0xA0;

/// The six ASCII characters that delimit words in every locale.
pub open spec fn ascii_space(cp: int) -> bool {
    0x09 <= cp <= 0x0D || cp == 0x20
}

/// The non-breaking characters that GNU adds to the delimiters.
pub open spec fn non_breaking(cp: int) -> bool {
    cp == 0x00A0 || cp == 0x2007 || cp == 0x202F || cp == 0x2060
}

/// The delimiters outside ASCII of a UTF-8 locale.
pub open spec fn wide_space(cp: int) -> bool {
    ||| cp == 0x1680
    ||| 0x2000 <= cp <= 0x2006
    ||| 0x2008 <= cp <= 0x200A
    ||| 0x2028 <= cp <= 0x2029
    ||| cp == 0x205F
    ||| cp == 0x3000
}

/// Character `cp` delimits words under `mode`.
pub open spec fn delimits(cp: int, mode: WsMode) -> bool {
    ||| ascii_space(cp)
    ||| mode.nbsp && non_breaking(cp)
    ||| mode.unicode && wide_space(cp)
}

/// The six bytes glibc's `isspace` accepts in any locale.
pub fn is_ascii_ws(b: u8) -> (r: bool)
    ensures
        r == ascii_space(b as int),
{
    matches!(b, 0x20 | 0x09..=0x0d)
}

/// Is `cp` white space for word-splitting purposes under `mode`?
pub fn is_ws_char(cp: u32, mode: WsMode) -> (r: bool)
    ensures
        r == delimits(cp as int, mode),
{
    if cp < 0x80 {
        return is_ascii_ws(cp as u8);
    }
    // U+3000 is the largest delimiter in either set, so everything above it
    // settles in one comparison.
    if cp > 0x3000 {
        return false;
    }
    if mode.nbsp && matches!(cp, 0x00A0 | 0x2007 | 0x202F | 0x2060) {
        return true;
    }
    if !mode.unicode {
        return false;
    }
    matches!(cp,
        0x1680
        | 0x2000..=0x2006
        | 0x2008..=0x200A
        | 0x2028..=0x2029
        | 0x205F
        | 0x3000
    )
}

/// `b` can follow the lead byte of a multi-byte sequence.
pub open spec fn continuation(b: u8) -> bool {
    0x80 <= b < 0xC0
}

/// How many bytes a sequence that starts with `lead` has: up to six, as
/// before RFC 3629; 0 for a byte that starts none.
pub open spec fn sequence_len(lead: u8) -> int {
    if lead < 0x80 {
        1
    } else if 0xC2 <= lead < 0xE0 {
        2
    } else if 0xE0 <= lead < 0xF0 {
        3
    } else if 0xF0 <= lead < 0xF8 {
        4
    } else if 0xF8 <= lead < 0xFC {
        5
    } else if 0xFC <= lead < 0xFE {
        6
    } else {
        0
    }
}

/// The least value that needs `n` bytes.
pub open spec fn least_scalar(n: int) -> int {
    if n <= 1 {
        0
    } else if n == 2 {
        0x80
    } else if n == 3 {
        0x800
    } else if n == 4 {
        0x1_0000
    } else if n == 5 {
        0x20_0000
    } else {
        0x400_0000
    }
}

/// The value bits of a lead byte.
pub open spec fn lead_bits(lead: u8) -> int {
    if lead < 0x80 {
        lead as int
    } else if lead < 0xE0 {
        lead - 0xC0
    } else if lead < 0xF0 {
        lead - 0xE0
    } else if lead < 0xF8 {
        lead - 0xF0
    } else if lead < 0xFC {
        lead - 0xF8
    } else {
        lead - 0xFC
    }
}

/// The number written by the first `k` bytes of the sequence at `i`: six bits
/// in each byte after the lead.
pub open spec fn value_of(s: Seq<u8>, i: int, k: int) -> int
    decreases k,
{
    if k <= 1 {
        lead_bits(s[i])
    } else {
        value_of(s, i, k - 1) * 64 + (s[i + k - 1] - 0x80)
    }
}

/// A surrogate is no character.
pub open spec fn surrogate(v: int) -> bool {
    0xD800 <= v < 0xE000
}

/// A character starts at `i`: a lead byte with all its continuation bytes,
/// in the shortest form, and no surrogate.
pub open spec fn char_at(s: Seq<u8>, i: int) -> bool {
    let n = sequence_len(s[i]);
    &&& 0 <= i < s.len()
    &&& n > 0
    &&& i + n <= s.len()
    &&& forall|k: int| i < k < i + n ==> continuation(#[trigger] s[k])
    &&& value_of(s, i, n) >= least_scalar(n)
    &&& !surrogate(value_of(s, i, n))
}

/// What `decode` gives for a byte that starts no character.
pub const REPLACEMENT: u32 = 0xFFFD;

/// One more than the greatest number that the first `k` bytes of a sequence
/// of `n` can write.
spec fn value_limit(n: int, k: int) -> int
    decreases k,
{
    if k <= 1 {
        if n == 1 { 128 } else if n == 2 { 32 } else if n == 3 { 16 } else if n == 4 { 8 } else if n == 5 { 4 } else { 2 }
    } else {
        value_limit(n, k - 1) * 64
    }
}

proof fn lemma_value_bound(s: Seq<u8>, i: int, k: int)
    requires
        0 <= i < s.len(),
        1 <= k <= sequence_len(s[i]),
        i + k <= s.len(),
        forall|j: int| i < j < i + k ==> continuation(#[trigger] s[j]),
    ensures
        0 <= value_of(s, i, k) < value_limit(sequence_len(s[i]), k) <= 0x8000_0000,
        k < sequence_len(s[i]) ==> value_of(s, i, k) < 0x200_0000,
    decreases k,
{
    reveal_with_fuel(value_limit, 6);
    if k > 1 {
        lemma_value_bound(s, i, k - 1);
        assert(continuation(s[i + k - 1]));
    }
}

/// A character of `n` bytes is too great for fewer and fits `n`.
pub proof fn lemma_value_range(s: Seq<u8>, i: int)
    requires
        char_at(s, i),
    ensures
        ({
            let n = sequence_len(s[i]);
            let v = value_of(s, i, n);
            &&& least_scalar(n) <= v <= 0x7FFF_FFFF
            &&& n < 6 ==> v < least_scalar(n + 1)
        }),
{
    reveal_with_fuel(value_limit, 6);
    lemma_value_bound(s, i, sequence_len(s[i]));
}

proof fn lemma_join_six_bits(hi: u32, c: u8)
    by (bit_vector)
    requires
        hi < 0x200_0000,
        0x80 <= c < 0xC0,
    ensures
        (hi << 6) | (c as u32 & 0x3F) == hi * 64 + (c - 0x80),
{
}

pub proof fn lemma_continuation_mask(c: u8)
    by (bit_vector)
    ensures
        (c & 0xC0 == 0x80) == (0x80 <= c && c < 0xC0),
{
}

proof fn lemma_lead_masks(b: u8)
    by (bit_vector)
    ensures
        0xC0 <= b < 0xE0 ==> (b as u32) & 0x1F == b - 0xC0,
        0xE0 <= b < 0xF0 ==> (b as u32) & 0x0F == b - 0xE0,
        0xF0 <= b < 0xF8 ==> (b as u32) & 0x07 == b - 0xF0,
        0xF8 <= b < 0xFC ==> (b as u32) & 0x03 == b - 0xF8,
        0xFC <= b < 0xFE ==> (b as u32) & 0x01 == b - 0xFC,
{
}

proof fn lemma_two_bytes(b: u8, c1: u8)
    by (bit_vector)
    requires
        0xC0 <= b < 0xE0,
        0x80 <= c1 < 0xC0,
    ensures
        ((((b as u32) & 0x1F) << 6) | (c1 as u32 & 0x3F)) == (b - 0xC0) * 64 + (c1 - 0x80),
{
}

proof fn lemma_three_bytes(b: u8, c1: u8, c2: u8)
    by (bit_vector)
    requires
        0xE0 <= b < 0xF0,
        0x80 <= c1 < 0xC0,
        0x80 <= c2 < 0xC0,
    ensures
        ((((b as u32) & 0x0F) << 12) | ((c1 as u32 & 0x3F) << 6) | (c2 as u32 & 0x3F)) == ((b
            - 0xE0) * 64 + (c1 - 0x80)) * 64 + (c2 - 0x80),
{
}

/// Decode one UTF-8 scalar at `data[i]`, returning (codepoint, length, valid).
///
/// A byte that starts no character is consumed alone and reported with
/// `valid = false`. As in glibc, sequences of up to six bytes are taken, and
/// every value up to U+7FFFFFFF; refused are overlong forms, surrogates and
/// the lead bytes 0xC0, 0xC1, 0xFE and 0xFF.
pub fn decode(data: &[u8], i: usize) -> (r: (u32, usize, bool))
    requires
        i < data@.len(),
    ensures
        r.2 == char_at(data@, i as int),
        r.2 ==> r.1 == sequence_len(data@[i as int]) && r.0 == value_of(data@, i as int, r.1 as int),
        !r.2 ==> r.1 == 1 && r.0 == REPLACEMENT && r.0 == 0xFFFD,
{
    let b: u8 = data[i];
    let ghost s = data@;
    let ghost p = i as int;
    proof {
        reveal_with_fuel(value_of, 6);
        lemma_lead_masks(b);
    }
    if b < 0x80 {
        return (b as u32, 1, true);
    }
    // Two- and three-byte sequences cover every non-ASCII character in
    // ordinary text, so they are decoded straight-line.
    if b < 0xE0 {
        if b < 0xC2 {
            return (REPLACEMENT, 1, false);
        }
        if data.len() - i < 2 {
            return (REPLACEMENT, 1, false);
        }
        let c1: u8 = data[i + 1];
        proof {
            lemma_continuation_mask(c1);
        }
        if c1 & 0xC0 != 0x80 {
            assert(!continuation(s[p + 1]));
            return (REPLACEMENT, 1, false);
        }
        proof {
            lemma_two_bytes(b, c1);
        }
        return ((((b as u32) & 0x1F) << 6) | (c1 as u32 & 0x3F), 2, true);
    }
    if b < 0xF0 {
        if data.len() - i < 3 {
            return (REPLACEMENT, 1, false);
        }
        let c1: u8 = data[i + 1];
        let c2: u8 = data[i + 2];
        proof {
            lemma_continuation_mask(c1);
            lemma_continuation_mask(c2);
        }
        if (c1 & 0xC0) != 0x80 || (c2 & 0xC0) != 0x80 {
            assert(!continuation(s[p + 1]) || !continuation(s[p + 2]));
            return (REPLACEMENT, 1, false);
        }
        proof {
            lemma_three_bytes(b, c1, c2);
        }
        let cp: u32 = (((b as u32) & 0x0F) << 12) | ((c1 as u32 & 0x3F) << 6) | (c2 as u32 & 0x3F);
        if cp < 0x800 || (0xD800 <= cp && cp < 0xE000) {
            return (REPLACEMENT, 1, false);
        }
        return (cp, 3, true);
    }
    let (len, min, mask): (usize, u32, u32) = if b < 0xF8 {
        (4, 0x1_0000, 0x07)
    } else if b < 0xFC {
        (5, 0x20_0000, 0x03)
    } else if b < 0xFE {
        (6, 0x400_0000, 0x01)
    } else {
        return (REPLACEMENT, 1, false);
    };
    if data.len() - i < len {
        return (REPLACEMENT, 1, false);
    }
    let mut cp: u32 = (b as u32) & mask;
    let mut k: usize = 1;
    while k < len
        invariant
            s == data@,
            p == i,
            1 <= k <= len <= 6,
            i + len <= data.len(),
            len == sequence_len(s[p]),
            forall|j: int| p < j < p + k ==> continuation(#[trigger] s[j]),
            cp == value_of(s, p, k as int),
        decreases len - k,
    {
        let c: u8 = data[i + k];
        proof {
            lemma_continuation_mask(c);
        }
        if c & 0xC0 != 0x80 {
            assert(!continuation(s[p + k]));
            return (REPLACEMENT, 1, false);
        }
        proof {
            lemma_value_bound(s, p, k as int);
            lemma_join_six_bits(cp, c);
        }
        cp = (cp << 6) | (c as u32 & 0x3F);
        k = k + 1;
    }
    if cp < min || (0xD800 <= cp && cp < 0xE000) {
        return (REPLACEMENT, 1, false);
    }
    (cp, len, true)
}

/// What `wcwidth`, the width function of the locale in force, gives for each
/// code point.
pub open spec fn width_of<W: Fn(u32) -> i32>(wcwidth: &W) -> spec_fn(u32) -> int {
    |cp: u32| (choose|r: i32| call_ensures(*wcwidth, (cp,), r)) as int
}

/// `wcwidth` takes every code point, gives the same width for it each time
/// (the locale does not change while a text is counted), and no width that
/// an `i8` cannot hold.
pub open spec fn is_width_function<W: Fn(u32) -> i32>(wcwidth: &W) -> bool {
    &&& forall|cp: u32| #[trigger] call_requires(*wcwidth, (cp,))
    &&& forall|cp: u32, r: i32| #[trigger]
        call_ensures(*wcwidth, (cp,), r) ==> r == width_of(wcwidth)(cp) && r <= 127
}

/// Marks a code point whose width has not been asked for yet.
const WIDTH_UNKNOWN: i8 = -1;

/// How many code points, from U+0000 on, a `WidthCache` remembers: those of
/// the Basic Multilingual Plane.
const CACHED: usize = 0x10000;

/// The widths of the Basic Multilingual Plane that have been asked for. The
/// locale cannot change while counting, so a width that is known stays right.
pub struct WidthCache {
    slots: Vec<i8>,
}

impl WidthCache {
    /// Every width that the cache knows is the one that `width` gives.
    pub closed spec fn agrees(&self, width: spec_fn(u32) -> int) -> bool {
        &&& self.slots@.len() == CACHED
        &&& forall|i: int|
            0 <= i < CACHED ==> #[trigger] self.slots@[i] == WIDTH_UNKNOWN || self.slots@[i] == (
            if width(i as u32) > 0 { width(i as u32) } else { 0 })
    }

    /// A cache that knows no width.
    pub fn new() -> (cache: WidthCache)
        ensures
            forall|width: spec_fn(u32) -> int| #[trigger] cache.agrees(width),
    {
        let mut slots: Vec<i8> = Vec::new();
        slots.resize(CACHED, WIDTH_UNKNOWN);
        WidthCache { slots }
    }
}

/// Column width of `cp`, mirroring GNU's `isprint` / `c32width`.
///
/// Unibyte locales use the C-locale `isprint`, which leaves out every byte
/// above 0x7E. Otherwise `wcwidth` is asked, at most once for each character
/// of the Basic Multilingual Plane; it counts only where it is positive, so
/// that non-printable characters (-1) and combining marks (0) add nothing.
pub fn display_width<W: Fn(u32) -> i32>(
    cp: u32,
    unicode: bool,
    wcwidth: &W,
    cache: &mut WidthCache,
) -> (r: i64)
    requires
        is_width_function(wcwidth),
        old(cache).agrees(width_of(wcwidth)),
    ensures
        r == text::columns(cp as int, unicode, width_of(wcwidth)),
        0 <= r <= 127,
        final(cache).agrees(width_of(wcwidth)),
{
    // ASCII has the same width in every locale.
    if cp < 0x80 {
        return if 0x20 <= cp && cp <= 0x7e { 1 } else { 0 };
    }
    if !unicode {
        return 0;
    }
    if cp < 0x1_0000 {
        let cached: i8 = cache.slots[cp as usize];
        if cached != WIDTH_UNKNOWN {
            return cached as i64;
        }
        let w: i32 = wcwidth(cp);
        let kept: i8 = if w > 0 { w as i8 } else { 0 };
        cache.slots.set(cp as usize, kept);
        return kept as i64;
    }
    let w: i32 = wcwidth(cp);
    if w > 0 {
        w as i64
    } else {
        0
    }
}

/// A lead byte of sequences that are neither overlong nor surrogates and that
/// no set of delimiters holds: the delimiters outside ASCII have the leads
/// 0xC2, 0xE1, 0xE2 and 0xE3.
pub open spec fn plain_lead(b: u8) -> bool {
    0xC3 <= b <= 0xDF || 0xE4 <= b <= 0xEC || b == 0xEE || b == 0xEF
}

/// Where the run of characters with plain leads that starts at `i` ends.
pub open spec fn plain_end(s: Seq<u8>, i: int) -> int
    decreases s.len() - i,
{
    if 0 <= i < s.len() && plain_lead(s[i]) && char_at(s, i) {
        plain_end(s, i + sequence_len(s[i]))
    } else {
        i
    }
}

/// The characters of the run with plain leads that starts at `i`.
pub open spec fn plain_run(s: Seq<u8>, i: int) -> Seq<Unit>
    decreases s.len() - i,
{
    if 0 <= i < s.len() && plain_lead(s[i]) && char_at(s, i) {
        seq![text::unit_at(s, i)] + plain_run(s, i + sequence_len(s[i]))
    } else {
        Seq::empty()
    }
}

/// Under a plain lead, continuation bytes are enough for a character, and it
/// is no delimiter.
pub proof fn lemma_plain_char(s: Seq<u8>, i: int)
    requires
        0 <= i < s.len(),
        plain_lead(s[i]),
    ensures
        char_at(s, i) <==> i + sequence_len(s[i]) <= s.len() && continuation(s[i + 1]) && (
        sequence_len(s[i]) == 3 ==> continuation(s[i + 2])),
        char_at(s, i) ==> {
            &&& value_of(s, i, sequence_len(s[i])) >= 0xC0
            &&& forall|mode: WsMode| !delimits(value_of(s, i, sequence_len(s[i])), mode)
        },
{
    reveal_with_fuel(value_of, 4);
    let n = sequence_len(s[i]);
    if i + n <= s.len() && continuation(s[i + 1]) && (n == 3 ==> continuation(s[i + 2])) {
        assert forall|k: int| i < k < i + n implies continuation(#[trigger] s[k]) by {}
    }
}

/// A text goes on behind a run with plain leads as it does without it, and
/// the run holds no delimiter.
pub proof fn lemma_plain_run(s: Seq<u8>, i: int)
    requires
        0 <= i <= s.len(),
    ensures
        i <= plain_end(s, i) <= s.len(),
        text::units_from(s, i) == plain_run(s, i) + text::units_from(s, plain_end(s, i)),
        2 * plain_run(s, i).len() <= plain_end(s, i) - i,
        forall|k: int|
            0 <= k < plain_run(s, i).len() ==> ({
                &&& (#[trigger] plain_run(s, i)[k]) is Char
                &&& plain_run(s, i)[k]->Char_0 >= 0xC0
                &&& forall|mode: WsMode| !text::is_space(plain_run(s, i)[k], mode)
            }),
    decreases s.len() - i,
{
    if i < s.len() && plain_lead(s[i]) && char_at(s, i) {
        let n = sequence_len(s[i]);
        lemma_plain_char(s, i);
        lemma_plain_run(s, i + n);
        let rest = plain_run(s, i + n);
        let run = plain_run(s, i);
        assert(run == seq![text::unit_at(s, i)] + rest);
        assert(text::units_from(s, i) =~= run + text::units_from(s, plain_end(s, i)));
        assert forall|k: int| 0 <= k < run.len() implies ({
            &&& (#[trigger] run[k]) is Char
            &&& run[k]->Char_0 >= 0xC0
            &&& forall|mode: WsMode| !text::is_space(run[k], mode)
        }) by {
            if k > 0 {
                assert(run[k] == rest[k - 1]);
            }
        }
    } else {
        assert(text::units_from(s, i) =~= Seq::<Unit>::empty() + text::units_from(s, i));
    }
}

/// Measure a run of multi-byte characters that cannot be white space.
///
/// A sequence led by 0xC3..=0xDF, 0xE4..=0xEC, 0xEE or 0xEF is no white space,
/// and it is well-formed as soon as its continuation bytes are there, so it
/// needs no classification, only its width.
///
/// Returns the end offset, how many characters were consumed and the total
/// column width they occupy.
pub fn nonspace_run<W: Fn(u32) -> i32>(
    data: &[u8],
    start: usize,
    wcwidth: &W,
    cache: &mut WidthCache,
) -> (r: (usize, u64, i64))
    requires
        64 * data@.len() <= i64::MAX,
        is_width_function(wcwidth),
        old(cache).agrees(width_of(wcwidth)),
    ensures
        r.0 == plain_end(data@, start as int),
        r.1 == plain_run(data@, start as int).len(),
        r.2 == text::column_after(plain_run(data@, start as int), 0, true, width_of(wcwidth)),
        0 <= r.2 <= 64 * (r.0 - start),
        final(cache).agrees(width_of(wcwidth)),
{
    let ghost s = data@;
    let ghost w = width_of(wcwidth);
    let ghost mut done: Seq<Unit> = Seq::empty();
    if start >= data.len() {
        return (start, 0, 0);
    }
    let mut i: usize = start;
    let mut chars: u64 = 0;
    let mut width: i64 = 0;
    let len: usize = data.len();
    assert(done + plain_run(s, i as int) =~= plain_run(s, i as int));
    while i < len
        invariant_except_break
            start <= i <= len,
        invariant
            s == data@,
            len == s.len(),
            64 * len <= i64::MAX,
            w == width_of(wcwidth),
            is_width_function(wcwidth),
            cache.agrees(w),
            start <= i <= len,
            plain_end(s, start as int) == plain_end(s, i as int),
            plain_run(s, start as int) == done + plain_run(s, i as int),
            chars == done.len(),
            chars <= i - start,
            width == text::column_after(done, 0, true, w),
            0 <= width <= 64 * (i - start),
        ensures
            plain_end(s, i as int) == i,
            plain_run(s, i as int).len() == 0,
        decreases len - i,
    {
        let b: u8 = data[i];
        let ghost at = i as int;
        proof {
            lemma_lead_masks(b);
            reveal_with_fuel(value_of, 4);
            if plain_lead(b) {
                lemma_plain_char(s, at);
            }
        }
        let cp: u32;
        let taken: usize;
        if 0xC3 <= b && b <= 0xDF {
            if len - i < 2 {
                break;
            }
            let c1: u8 = data[i + 1];
            proof {
                lemma_continuation_mask(c1);
            }
            if c1 & 0xC0 != 0x80 {
                break;
            }
            proof {
                lemma_two_bytes(b, c1);
            }
            cp = (((b as u32) & 0x1F) << 6) | (c1 as u32 & 0x3F);
            taken = 2;
        } else if (0xE4 <= b && b <= 0xEC) || b == 0xEE || b == 0xEF {
            if len - i < 3 {
                break;
            }
            let c1: u8 = data[i + 1];
            let c2: u8 = data[i + 2];
            proof {
                lemma_continuation_mask(c1);
                lemma_continuation_mask(c2);
            }
            if c1 & 0xC0 != 0x80 || c2 & 0xC0 != 0x80 {
                break;
            }
            proof {
                lemma_three_bytes(b, c1, c2);
            }
            cp = (((b as u32) & 0x0F) << 12) | ((c1 as u32 & 0x3F) << 6) | (c2 as u32 & 0x3F);
            taken = 3;
        } else {
            break;
        }
        assert(cp == value_of(s, at, taken as int));
        i = i + taken;
        chars = chars + 1;
        let cols: i64 = display_width(cp, true, wcwidth, cache);
        width = width + cols;
        proof {
            let u = text::unit_at(s, at);
            assert(u == Unit::Char(cp as int));
            text::lemma_columns_push(done, u, 0, true, w);
            assert(done + plain_run(s, at) =~= done.push(u) + plain_run(s, i as int));
            done = done.push(u);
        }
    }
    assert(plain_run(s, start as int) =~= done);
    (i, chars, width)
}

/// Returns (lines, words, bytes, chars, carry_out); `carry_in` tells whether
/// the reader stands between words at the start, `carry_out` whether it does
/// at the end. The bytes are decoded as in a multi-byte locale.
pub fn count_scalar_unicode(
    data: &[u8],
    carry_in: bool,
    want_chars: bool,
    mode: WsMode,
) -> (r: (u64, u64, u64, u64, bool))
    ensures
        r.0 == text::line_count(text::decoded(data@)),
        r.1 == text::word_count(text::decoded(data@), carry_in, mode),
        r.2 == data@.len(),
        r.3 == if want_chars { text::char_count(text::decoded(data@)) } else { 0 },
        r.4 == text::ends_outside(text::decoded(data@), carry_in, mode),
{
    let ghost s = data@;
    let ghost mut done: Seq<Unit> = Seq::empty();
    let mut lines: u64 = 0;
    let mut words: u64 = 0;
    let mut chars: u64 = 0;
    let mut prev_ws: bool = carry_in;
    let mut i: usize = 0;
    assert(done + text::units_from(s, 0) =~= text::units_from(s, 0));
    while i < data.len()
        invariant
            s == data@,
            i <= s.len(),
            text::decoded(s) == done + text::units_from(s, i as int),
            done.len() <= i,
            lines == text::line_count(done),
            words == text::word_count(done, carry_in, mode),
            chars == if want_chars { text::char_count(done) } else { 0 },
            prev_ws == text::ends_outside(done, carry_in, mode),
        decreases data.len() - i,
    {
        let b: u8 = data[i];
        let ghost at = i as int;
        let ghost u = text::unit_at(s, at);
        proof {
            reveal_with_fuel(value_of, 2);
            text::lemma_step(s, at);
            text::lemma_count_bounds(done, carry_in, mode);
            text::lemma_counts_push(done, u, carry_in, mode);
        }
        let (cp, len, valid): (u32, usize, bool) = if b < 0x80 {
            (b as u32, 1, true)
        } else {
            decode(data, i)
        };
        if b == 0x0a {
            lines = lines + 1;
        }
        let ws: bool = valid && is_ws_char(cp, mode);
        if !ws && prev_ws {
            words = words + 1;
        }
        prev_ws = ws;
        if want_chars && valid {
            chars = chars + 1;
        }
        proof {
            lemma_ascii_alone(s, at);
            assert(done + text::units_from(s, at) =~= done.push(u) + text::units_from(
                s,
                at + len,
            ));
            done = done.push(u);
        }
        i = i + len;
    }
    assert(done + text::units_from(s, i as int) =~= done);
    (lines, words, data.len() as u64, chars, prev_ws)
}

/// An ASCII character is written by the byte of its number and by nothing
/// else.
pub proof fn lemma_ascii_alone(s: Seq<u8>, i: int)
    requires
        0 <= i < s.len(),
    ensures
        s[i] < 0x80 ==> char_at(s, i) && text::unit_at(s, i) == Unit::Char(s[i] as int)
            && text::step_at(s, i) == 1,
        s[i] >= 0x80 ==> (text::unit_at(s, i) matches Unit::Char(cp) ==> cp >= 0x80),
{
    reveal_with_fuel(value_of, 2);
}

/// A delimiter has at most three bytes.
pub proof fn lemma_space_len(s: Seq<u8>, i: int, mode: WsMode)
    requires
        char_at(s, i),
        delimits(value_of(s, i, sequence_len(s[i])), mode),
    ensures
        sequence_len(s[i]) <= 3,
{
}

} // verus!
