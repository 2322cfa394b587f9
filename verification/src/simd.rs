//! Counting kernel that works on lanes of 32 bytes.
//!
//! A lane is compared with a byte all at once, the outcome is packed into a
//! 32-bit mask, and lines and words are counted with a few operations on the
//! mask.
use crate::bits;
use crate::text;
use crate::text::Unit;
use crate::ws;
use crate::ws::WsMode;
use vstd::prelude::*;

verus! {

/// The number of bytes in a lane.
pub const LANE: usize = 32;

/// Tells in debug output that the kernel works on lanes.
pub fn avx2_available() -> (r: bool)
    ensures
        r,
{
    true
}

/// The mode of a unibyte locale without the GNU delimiters.
pub open spec fn plain_bytes() -> WsMode {
    WsMode { unicode: false, nbsp: false }
}

/// The mode of a unibyte locale with the GNU delimiters.
pub open spec fn gnu_bytes() -> WsMode {
    WsMode { unicode: false, nbsp: true }
}

fn is_ws_byte(b: u8) -> (r: bool)
    ensures
        r == ws::ascii_space(b as int),
{
    matches!(b, 0x20 | 0x09..=0x0d)
}

fn load_at(data: &[u8], i: usize) -> (chunk: [u8; LANE])
    requires
        i + LANE <= data@.len(),
    ensures
        forall|k: int| 0 <= k < LANE ==> #[trigger] chunk@[k] == data@[i + k],
{
    let mut chunk: [u8; LANE] = [0u8; LANE];
    let mut k: usize = 0;
    while k < LANE
        invariant
            i + LANE <= data.len(),
            k <= LANE,
            forall|j: int| 0 <= j < k ==> #[trigger] chunk@[j] == data@[i + j],
        decreases LANE - k,
    {
        chunk[k] = data[i + k];
        k = k + 1;
    }
    chunk
}

fn bitmask(m: &[bool; LANE]) -> (r: u32)
    ensures
        forall|k: int| 0 <= k < LANE ==> #[trigger] bits::bit(r, k) == m@[k],
{
    let mut r: u32 = 0;
    let mut k: usize = 0;
    assert(0u32 >> 0u32 == 0) by (bit_vector);
    while k < LANE
        invariant
            k <= LANE,
            k < LANE ==> r >> (k as u32) == 0,
            forall|j: int| 0 <= j < k ==> #[trigger] bits::bit(r, j) == m@[j],
        decreases LANE - k,
    {
        proof {
            bits::lemma_set_bit(r, k as int);
        }
        if m[k] {
            r = r | (1u32 << (k as u32));
        }
        k = k + 1;
    }
    r
}

fn eq_splat(chunk: &[u8; LANE], b: u8) -> (m: [bool; LANE])
    ensures
        forall|k: int| 0 <= k < LANE ==> #[trigger] m@[k] == (chunk@[k] == b),
{
    let mut m: [bool; LANE] = [false; LANE];
    let mut k: usize = 0;
    while k < LANE
        invariant
            k <= LANE,
            forall|j: int| 0 <= j < k ==> #[trigger] m@[j] == (chunk@[j] == b),
        decreases LANE - k,
    {
        m[k] = chunk[k] == b;
        k = k + 1;
    }
    m
}

/// The lanes of either mask.
fn either(a: &[bool; LANE], b: &[bool; LANE]) -> (m: [bool; LANE])
    ensures
        forall|k: int| 0 <= k < LANE ==> #[trigger] m@[k] == (a@[k] || b@[k]),
{
    let mut m: [bool; LANE] = [false; LANE];
    let mut k: usize = 0;
    while k < LANE
        invariant
            k <= LANE,
            forall|j: int| 0 <= j < k ==> #[trigger] m@[j] == (a@[j] || b@[j]),
        decreases LANE - k,
    {
        m[k] = a[k] || b[k];
        k = k + 1;
    }
    m
}

/// The lanes that hold a byte from `low` to `high`.
fn between(chunk: &[u8; LANE], low: u8, high: u8) -> (m: [bool; LANE])
    ensures
        forall|k: int| 0 <= k < LANE ==> #[trigger] m@[k] == (low <= chunk@[k] <= high),
{
    let mut m: [bool; LANE] = [false; LANE];
    let mut k: usize = 0;
    while k < LANE
        invariant
            k <= LANE,
            forall|j: int| 0 <= j < k ==> #[trigger] m@[j] == (low <= chunk@[j] <= high),
        decreases LANE - k,
    {
        m[k] = low <= chunk[k] && chunk[k] <= high;
        k = k + 1;
    }
    m
}

fn ascii_ws_mask(chunk: &[u8; LANE]) -> (m: [bool; LANE])
    ensures
        forall|k: int| 0 <= k < LANE ==> #[trigger] m@[k] == ws::ascii_space(chunk@[k] as int),
{
    let nl: [bool; LANE] = eq_splat(chunk, 0x0a);
    let space: [bool; LANE] = eq_splat(chunk, 0x20);
    let tab: [bool; LANE] = eq_splat(chunk, 0x09);
    let vt: [bool; LANE] = eq_splat(chunk, 0x0b);
    let ff: [bool; LANE] = eq_splat(chunk, 0x0c);
    let cr: [bool; LANE] = eq_splat(chunk, 0x0d);
    either(&either(&either(&nl, &space), &either(&tab, &vt)), &either(&ff, &cr))
}

/// The number of bytes of `s` that continue no multi-byte sequence.
pub open spec fn lead_count(s: Seq<u8>) -> int
    decreases s.len(),
{
    if s.len() == 0 {
        0
    } else {
        lead_count(s.drop_last()) + if ws::continuation(s.last()) { 0int } else { 1 }
    }
}

proof fn lemma_lead_count_concat(a: Seq<u8>, b: Seq<u8>)
    ensures
        lead_count(a + b) == lead_count(a) + lead_count(b),
    decreases b.len(),
{
    if b.len() == 0 {
        assert(a + b =~= a);
    } else {
        lemma_lead_count_concat(a, b.drop_last());
        assert((a + b).drop_last() =~= a + b.drop_last());
    }
}

proof fn lemma_lead_count_bounds(s: Seq<u8>)
    ensures
        0 <= lead_count(s) <= s.len(),
    decreases s.len(),
{
    if s.len() > 0 {
        lemma_lead_count_bounds(s.drop_last());
    }
}

/// In a text of ASCII alone every byte is a character.
proof fn lemma_lead_count_ascii(s: Seq<u8>)
    requires
        forall|k: int| 0 <= k < s.len() ==> #[trigger] s[k] < 0x80,
    ensures
        lead_count(s) == s.len(),
    decreases s.len(),
{
    if s.len() > 0 {
        assert(s.last() == s[s.len() - 1]);
        lemma_lead_count_ascii(s.drop_last());
    }
}

/// A word starts at unit `k`.
spec fn word_start(us: Seq<Unit>, k: int, outside: bool, mode: WsMode) -> bool {
    !text::is_space(us[k], mode) && if k == 0 {
        outside
    } else {
        text::is_space(us[k - 1], mode)
    }
}

/// Lines and words as numbers of positions.
proof fn lemma_counts_are_hits(us: Seq<Unit>, n: int, outside: bool, mode: WsMode)
    requires
        0 <= n <= us.len(),
    ensures
        text::line_count(us.take(n)) == bits::hits(|k: int| us[k] == Unit::Char(0x0a), n),
        text::word_count(us.take(n), outside, mode) == bits::hits(
            |k: int| word_start(us, k, outside, mode),
            n,
        ),
    decreases n,
{
    if n > 0 {
        lemma_counts_are_hits(us, n - 1, outside, mode);
        assert(us.take(n).drop_last() =~= us.take(n - 1));
        assert(us.take(n).last() == us[n - 1]);
    }
}

/// The number of bytes that start characters as a number of positions.
proof fn lemma_leads_are_hits(s: Seq<u8>, n: int)
    requires
        0 <= n <= s.len(),
    ensures
        lead_count(s.take(n)) == bits::hits(|k: int| !ws::continuation(s[k]), n),
    decreases n,
{
    if n > 0 {
        lemma_leads_are_hits(s, n - 1);
        assert(s.take(n).drop_last() =~= s.take(n - 1));
        assert(s.take(n).last() == s[n - 1]);
    }
}

/// The masks of one lane give its lines and words.
proof fn lemma_lane(
    lane: Seq<u8>,
    nl_bits: u32,
    ws_bits: u32,
    carry: bool,
    mode: WsMode,
)
    requires
        lane.len() == LANE,
        !mode.unicode,
        forall|k: int| 0 <= k < LANE ==> #[trigger] bits::bit(nl_bits, k) == (lane[k] == 0x0a),
        forall|k: int|
            0 <= k < LANE ==> #[trigger] bits::bit(ws_bits, k) == ws::delimits(lane[k] as int, mode),
    ensures
        bits::ones(nl_bits) == text::line_count(text::bytes_as_chars(lane)),
        bits::ones(!ws_bits & ((ws_bits << 1) | (if carry { 1u32 } else { 0u32 })))
            == text::word_count(text::bytes_as_chars(lane), carry, mode),
        bits::bit(ws_bits, 31) == text::ends_outside(text::bytes_as_chars(lane), carry, mode),
        0 <= bits::ones(nl_bits) <= LANE,
        0 <= bits::ones(!ws_bits & ((ws_bits << 1) | (if carry { 1u32 } else { 0u32 }))) <= LANE,
{
    let us = text::bytes_as_chars(lane);
    let c = if carry { 1u32 } else { 0u32 };
    let starts = !ws_bits & ((ws_bits << 1) | c);
    lemma_counts_are_hits(us, LANE as int, carry, mode);
    assert(us.take(LANE as int) =~= us);
    bits::lemma_ones(nl_bits);
    bits::lemma_ones(starts);
    bits::lemma_hits_same(
        |k: int| bits::bit(nl_bits, k),
        |k: int| us[k] == Unit::Char(0x0a),
        LANE as int,
    );
    assert forall|k: int| 0 <= k < LANE implies #[trigger] bits::bit(starts, k) == word_start(
        us,
        k,
        carry,
        mode,
    ) by {
        bits::lemma_starts(ws_bits, c, k);
        assert(bits::bit(ws_bits, k) == ws::delimits(lane[k] as int, mode));
        if k > 0 {
            assert(bits::bit(ws_bits, k - 1) == ws::delimits(lane[k - 1] as int, mode));
        }
    }
    bits::lemma_hits_same(
        |k: int| bits::bit(starts, k),
        |k: int| word_start(us, k, carry, mode),
        LANE as int,
    );
    assert(bits::bit(ws_bits, 31) == ws::delimits(lane[31] as int, mode));
}

/// What has been counted of `s` up to `i`, and what a lane or a tail `part`
/// adds to it.
proof fn lemma_extend(s: Seq<u8>, i: int, j: int, carry_in: bool, mode: WsMode)
    requires
        0 <= i <= j <= s.len(),
    ensures
        text::bytes_as_chars(s.take(j)) == text::bytes_as_chars(s.take(i)) + text::bytes_as_chars(
            s.subrange(i, j),
        ),
        text::line_count(text::bytes_as_chars(s.take(j))) == text::line_count(
            text::bytes_as_chars(s.take(i)),
        ) + text::line_count(text::bytes_as_chars(s.subrange(i, j))),
        ({
            let before = text::bytes_as_chars(s.take(i));
            let part = text::bytes_as_chars(s.subrange(i, j));
            let carry = text::ends_outside(before, carry_in, mode);
            &&& text::word_count(text::bytes_as_chars(s.take(j)), carry_in, mode)
                == text::word_count(before, carry_in, mode) + text::word_count(part, carry, mode)
            &&& text::ends_outside(text::bytes_as_chars(s.take(j)), carry_in, mode)
                == text::ends_outside(part, carry, mode)
        }),
        lead_count(s.take(j)) == lead_count(s.take(i)) + lead_count(s.subrange(i, j)),
        0 <= text::line_count(text::bytes_as_chars(s.take(j))) <= j,
        0 <= text::word_count(text::bytes_as_chars(s.take(j)), carry_in, mode) <= j,
        0 <= lead_count(s.take(j)) <= j,
{
    let a = text::bytes_as_chars(s.take(i));
    let b = text::bytes_as_chars(s.subrange(i, j));
    assert(s.take(j) =~= s.take(i) + s.subrange(i, j));
    assert(text::bytes_as_chars(s.take(j)) =~= a + b);
    text::lemma_line_count_concat(a, b);
    text::lemma_word_count_concat(a, b, carry_in, mode);
    text::lemma_ends_outside_concat(a, b, carry_in, mode);
    lemma_lead_count_concat(s.take(i), s.subrange(i, j));
    text::lemma_count_bounds(a + b, carry_in, mode);
    lemma_lead_count_bounds(s.take(j));
}

fn count_unibyte_nbsp_scalar(data: &[u8], carry_in: bool) -> (r: (u64, u64, u64, u64, bool))
    ensures
        r.0 == text::line_count(text::bytes_as_chars(data@)),
        r.1 == text::word_count(text::bytes_as_chars(data@), carry_in, gnu_bytes()),
        r.2 == data@.len(),
        r.3 == 0,
        r.4 == text::ends_outside(text::bytes_as_chars(data@), carry_in, gnu_bytes()),
{
    let ghost s = data@;
    let mut lines: u64 = 0;
    let mut words: u64 = 0;
    let mut prev_ws: bool = carry_in;
    let mut i: usize = 0;
    while i < data.len()
        invariant
            s == data@,
            i <= s.len(),
            lines == text::line_count(text::bytes_as_chars(s.take(i as int))),
            words == text::word_count(
                text::bytes_as_chars(s.take(i as int)),
                carry_in,
                gnu_bytes(),
            ),
            prev_ws == text::ends_outside(
                text::bytes_as_chars(s.take(i as int)),
                carry_in,
                gnu_bytes(),
            ),
        decreases data.len() - i,
    {
        let b: u8 = data[i];
        proof {
            let us = text::bytes_as_chars(s.take(i as int));
            assert(text::bytes_as_chars(s.take(i + 1)) =~= us.push(Unit::Char(b as int)));
            text::lemma_count_bounds(us, carry_in, gnu_bytes());
            text::lemma_counts_push(us, Unit::Char(b as int), carry_in, gnu_bytes());
        }
        if b == 0x0a {
            lines = lines + 1;
        }
        let ws: bool = is_ws_byte(b) || b == ws::NBSP_BYTE;
        if !ws && prev_ws {
            words = words + 1;
        }
        prev_ws = ws;
        i = i + 1;
    }
    assert(s.take(i as int) =~= s);
    (lines, words, data.len() as u64, 0, prev_ws)
}

fn count_buf_unibyte_nbsp(data: &[u8], carry_in: bool) -> (r: (u64, u64, u64, u64, bool))
    ensures
        r.0 == text::line_count(text::bytes_as_chars(data@)),
        r.1 == text::word_count(text::bytes_as_chars(data@), carry_in, gnu_bytes()),
        r.2 == data@.len(),
        r.3 == 0,
        r.4 == text::ends_outside(text::bytes_as_chars(data@), carry_in, gnu_bytes()),
{
    let ghost s = data@;
    let mut lines: u64 = 0;
    let mut words: u64 = 0;
    let mut carry: bool = carry_in;
    let mut i: usize = 0;
    while data.len() - i >= LANE
        invariant
            s == data@,
            i <= data.len(),
            lines == text::line_count(text::bytes_as_chars(s.take(i as int))),
            words == text::word_count(
                text::bytes_as_chars(s.take(i as int)),
                carry_in,
                gnu_bytes(),
            ),
            carry == text::ends_outside(
                text::bytes_as_chars(s.take(i as int)),
                carry_in,
                gnu_bytes(),
            ),
        decreases data.len() - i,
    {
        let chunk: [u8; LANE] = load_at(data, i);
        let eq_nl: [bool; LANE] = eq_splat(&chunk, 0x0a);
        let ws: [bool; LANE] = either(&ascii_ws_mask(&chunk), &eq_splat(&chunk, ws::NBSP_BYTE));
        let nl_bits: u32 = bitmask(&eq_nl);
        let ws_bits: u32 = bitmask(&ws);
        proof {
            let lane = s.subrange(i as int, i + LANE);
            lemma_lane(lane, nl_bits, ws_bits, carry, gnu_bytes());
            lemma_extend(s, i as int, i + LANE, carry_in, gnu_bytes());
        }
        lines = lines + nl_bits.count_ones() as u64;
        words = words + (!ws_bits & ((ws_bits << 1) | (carry as u32))).count_ones() as u64;
        carry = (ws_bits >> 31) & 1 == 1;
        i = i + LANE;
    }
    let (t_lines, t_words, _, _, t_carry): (u64, u64, u64, u64, bool) = count_unibyte_nbsp_scalar(
        &data[i..data.len()],
        carry,
    );
    proof {
        lemma_extend(s, i as int, s.len() as int, carry_in, gnu_bytes());
        assert(s.take(s.len() as int) =~= s);
    }
    (lines + t_lines, words + t_words, data.len() as u64, 0, t_carry)
}

/// Count byte by byte, with the ASCII delimiters alone. Returns (lines,
/// words, bytes, chars, carry_out); a character is counted at each byte that
/// continues no multi-byte sequence.
pub fn count_buf_scalar(data: &[u8], carry_in: bool, want_chars: bool) -> (r: (
    u64,
    u64,
    u64,
    u64,
    bool,
))
    ensures
        r.0 == text::line_count(text::bytes_as_chars(data@)),
        r.1 == text::word_count(text::bytes_as_chars(data@), carry_in, plain_bytes()),
        r.2 == data@.len(),
        r.3 == if want_chars { lead_count(data@) } else { 0 },
        r.4 == text::ends_outside(text::bytes_as_chars(data@), carry_in, plain_bytes()),
{
    let ghost s = data@;
    let mut lines: u64 = 0;
    let mut words: u64 = 0;
    let mut chars: u64 = 0;
    let mut prev_ws: bool = carry_in;
    let mut i: usize = 0;
    while i < data.len()
        invariant
            s == data@,
            i <= s.len(),
            lines == text::line_count(text::bytes_as_chars(s.take(i as int))),
            words == text::word_count(
                text::bytes_as_chars(s.take(i as int)),
                carry_in,
                plain_bytes(),
            ),
            chars == if want_chars { lead_count(s.take(i as int)) } else { 0 },
            prev_ws == text::ends_outside(
                text::bytes_as_chars(s.take(i as int)),
                carry_in,
                plain_bytes(),
            ),
        decreases data.len() - i,
    {
        let b: u8 = data[i];
        proof {
            let us = text::bytes_as_chars(s.take(i as int));
            assert(text::bytes_as_chars(s.take(i + 1)) =~= us.push(Unit::Char(b as int)));
            text::lemma_count_bounds(us, carry_in, plain_bytes());
            text::lemma_counts_push(us, Unit::Char(b as int), carry_in, plain_bytes());
            assert(s.take(i + 1).drop_last() =~= s.take(i as int));
            lemma_lead_count_bounds(s.take(i as int));
            ws::lemma_continuation_mask(b);
        }
        if b == 0x0a {
            lines = lines + 1;
        }
        let ws: bool = is_ws_byte(b);
        if !ws && prev_ws {
            words = words + 1;
        }
        prev_ws = ws;
        if want_chars && (b & 0xC0) != 0x80 {
            chars = chars + 1;
        }
        i = i + 1;
    }
    assert(s.take(i as int) =~= s);
    (lines, words, data.len() as u64, chars, prev_ws)
}

/// The same counts as `count_buf_scalar`, a lane at a time.
pub fn count_buf_portable(data: &[u8], carry_in: bool, want_chars: bool) -> (r: (
    u64,
    u64,
    u64,
    u64,
    bool,
))
    ensures
        r.0 == text::line_count(text::bytes_as_chars(data@)),
        r.1 == text::word_count(text::bytes_as_chars(data@), carry_in, plain_bytes()),
        r.2 == data@.len(),
        r.3 == if want_chars { lead_count(data@) } else { 0 },
        r.4 == text::ends_outside(text::bytes_as_chars(data@), carry_in, plain_bytes()),
{
    let ghost s = data@;
    let mut lines: u64 = 0;
    let mut words: u64 = 0;
    let mut chars: u64 = 0;
    let mut carry: bool = carry_in;
    let mut i: usize = 0;
    while data.len() - i >= LANE
        invariant
            s == data@,
            i <= data.len(),
            lines == text::line_count(text::bytes_as_chars(s.take(i as int))),
            words == text::word_count(
                text::bytes_as_chars(s.take(i as int)),
                carry_in,
                plain_bytes(),
            ),
            chars == if want_chars { lead_count(s.take(i as int)) } else { 0 },
            carry == text::ends_outside(
                text::bytes_as_chars(s.take(i as int)),
                carry_in,
                plain_bytes(),
            ),
        decreases data.len() - i,
    {
        let chunk: [u8; LANE] = load_at(data, i);
        let nl_bits: u32 = bitmask(&eq_splat(&chunk, 0x0a));
        let ws_bits: u32 = bitmask(&ascii_ws_mask(&chunk));
        let ghost lane = s.subrange(i as int, i + LANE);
        proof {
            lemma_lane(lane, nl_bits, ws_bits, carry, plain_bytes());
            lemma_extend(s, i as int, i + LANE, carry_in, plain_bytes());
        }
        lines = lines + nl_bits.count_ones() as u64;
        words = words + (!ws_bits & ((ws_bits << 1) | (carry as u32))).count_ones() as u64;
        carry = (ws_bits >> 31) & 1 == 1;
        if want_chars {
            let cont_bits: u32 = bitmask(&between(&chunk, 0x80, 0xBF));
            proof {
                lemma_lane_leads(lane, cont_bits);
            }
            chars = chars + (LANE as u32 - cont_bits.count_ones()) as u64;
        }
        i = i + LANE;
    }
    let (t_lines, t_words, _, t_chars, t_carry): (u64, u64, u64, u64, bool) = count_buf_scalar(
        &data[i..data.len()],
        carry,
        want_chars,
    );
    proof {
        lemma_extend(s, i as int, s.len() as int, carry_in, plain_bytes());
        assert(s.take(s.len() as int) =~= s);
    }
    (lines + t_lines, words + t_words, data.len() as u64, chars + t_chars, t_carry)
}

/// The mask of the continuation bytes of a lane gives how many others it has.
proof fn lemma_lane_leads(lane: Seq<u8>, cont_bits: u32)
    requires
        lane.len() == LANE,
        forall|k: int|
            0 <= k < LANE ==> #[trigger] bits::bit(cont_bits, k) == ws::continuation(lane[k]),
    ensures
        lead_count(lane) == LANE - bits::ones(cont_bits),
        0 <= bits::ones(cont_bits) <= LANE,
{
    lemma_leads_are_hits(lane, LANE as int);
    assert(lane.take(LANE as int) =~= lane);
    bits::lemma_ones(cont_bits);
    bits::lemma_hits_complement(
        |k: int| bits::bit(cont_bits, k),
        |k: int| !ws::continuation(lane[k]),
        LANE as int,
    );
}

/// Lines, words, bytes, characters and the carry of a text whose delimiters
/// are the ASCII ones.
pub fn count_buf(data: &[u8], carry_in: bool, want_chars: bool) -> (r: (u64, u64, u64, u64, bool))
    ensures
        r.0 == text::line_count(text::bytes_as_chars(data@)),
        r.1 == text::word_count(text::bytes_as_chars(data@), carry_in, plain_bytes()),
        r.2 == data@.len(),
        r.3 == if want_chars { lead_count(data@) } else { 0 },
        r.4 == text::ends_outside(text::bytes_as_chars(data@), carry_in, plain_bytes()),
{
    count_buf_portable(data, carry_in, want_chars)
}

/// The number of characters of a text.
pub fn count_chars_only(data: &[u8], mode: WsMode) -> (r: u64)
    ensures
        r == text::char_count(text::units(data@, mode)),
{
    if !mode.unicode {
        proof {
            text::lemma_bytes_all_chars(data@);
        }
        return data.len() as u64;
    }
    ws::count_scalar_unicode(data, true, true, mode).3
}

/// The number of positions from `from` on at which a character starts.
pub open spec fn chars_starting(s: Seq<u8>, from: int) -> int
    decreases s.len() - from,
{
    if 0 <= from < s.len() {
        (if ws::char_at(s, from) { 1int } else { 0 }) + chars_starting(s, from + 1)
    } else {
        0
    }
}

/// The number of positions from `from` on at which a character starts, each
/// position taken by itself.
pub fn chars_tail_scalar(data: &[u8], from: usize) -> (r: u64)
    ensures
        r == chars_starting(data@, from as int),
{
    let ghost s = data@;
    let mut n: u64 = 0;
    let mut i: usize = from;
    while i < data.len()
        invariant
            s == data@,
            from <= i,
            chars_starting(s, from as int) == n + chars_starting(s, i as int),
            n <= i - from,
        decreases data.len() - i,
    {
        let b: u8 = data[i];
        proof {
            ws::lemma_ascii_alone(s, i as int);
        }
        if b < 0x80 {
            n = n + 1;
        } else if ws::decode(data, i).2 {
            n = n + 1;
        }
        i = i + 1;
    }
    n
}

/// Count a text as `mode` reads it. Returns (lines, words, bytes, chars,
/// carry_out); the characters are 0 unless they are wanted.
pub fn count_buf_mode(data: &[u8], carry_in: bool, want_chars: bool, mode: WsMode) -> (r: (
    u64,
    u64,
    u64,
    u64,
    bool,
))
    ensures
        r.0 == text::line_count(text::units(data@, mode)),
        r.1 == text::word_count(text::units(data@, mode), carry_in, mode),
        r.2 == data@.len(),
        r.3 == if want_chars { text::char_count(text::units(data@, mode)) } else { 0 },
        r.4 == text::ends_outside(text::units(data@, mode), carry_in, mode),
{
    if !mode.unicode {
        proof {
            text::lemma_bytes_all_chars(data@);
        }
        let (lines, words, bytes, _, carry): (u64, u64, u64, u64, bool) = if mode.nbsp {
            assert(mode == gnu_bytes());
            count_buf_unibyte_nbsp(data, carry_in)
        } else {
            assert(mode == plain_bytes());
            count_buf(data, carry_in, false)
        };
        return (lines, words, bytes, if want_chars { bytes } else { 0 }, carry);
    }
    count_buf_unicode(data, carry_in, want_chars, mode)
}

/// A delimiter of `n` bytes starts at `j`, in a multi-byte locale.
pub open spec fn space_at(s: Seq<u8>, j: int, n: int, nbsp: bool) -> bool {
    &&& ws::char_at(s, j)
    &&& ws::sequence_len(s[j]) == n
    &&& ws::delimits(ws::value_of(s, j, n), WsMode { unicode: true, nbsp })
}

/// The bytes of the delimiters of two and three bytes.
proof fn lemma_space_bytes(s: Seq<u8>, j: int, nbsp: bool)
    requires
        0 <= j,
        j + 2 < s.len(),
    ensures
        space_at(s, j, 2, nbsp) <==> nbsp && s[j] == 0xC2 && s[j + 1] == 0xA0,
        space_at(s, j, 3, nbsp) <==> {
            ||| s[j] == 0xE1 && s[j + 1] == 0x9A && s[j + 2] == 0x80
            ||| s[j] == 0xE3 && s[j + 1] == 0x80 && s[j + 2] == 0x80
            ||| s[j] == 0xE2 && s[j + 1] == 0x80 && {
                ||| 0x80 <= s[j + 2] <= 0x8A && (nbsp || s[j + 2] != 0x87)
                ||| 0xA8 <= s[j + 2] <= 0xA9
                ||| nbsp && s[j + 2] == 0xAF
            }
            ||| s[j] == 0xE2 && s[j + 1] == 0x81 && (s[j + 2] == 0x9F || nbsp && s[j + 2] == 0xA0)
        },
{
    reveal_with_fuel(ws::value_of, 4);
    if ws::char_at(s, j) {
        if ws::sequence_len(s[j]) >= 2 {
            assert(ws::continuation(s[j + 1]));
        }
        if ws::sequence_len(s[j]) >= 3 {
            assert(ws::continuation(s[j + 2]));
        }
    }
}

/// Positions of 2-byte and 3-byte white space leads in one 32-byte lane, as
/// two masks.
pub fn ws_seq_masks(data: &[u8], i: usize, nbsp: bool) -> (r: (u32, u32))
    requires
        i + LANE + 2 <= data.len(),
    ensures
        forall|k: int|
            0 <= k < LANE ==> #[trigger] bits::bit(r.0, k) == space_at(data@, i + k, 2, nbsp),
        forall|k: int|
            0 <= k < LANE ==> #[trigger] bits::bit(r.1, k) == space_at(data@, i + k, 3, nbsp),
{
    let ghost s = data@;
    let chunk: [u8; LANE] = load_at(data, i);
    let next1: [u8; LANE] = load_at(data, i + 1);
    let next2: [u8; LANE] = load_at(data, i + 2);

    let is_c2: [bool; LANE] = eq_splat(&chunk, ws::LEAD_C2);
    let is_e1: [bool; LANE] = eq_splat(&chunk, ws::LEAD_E1);
    let is_e2: [bool; LANE] = eq_splat(&chunk, ws::LEAD_E2);
    let is_e3: [bool; LANE] = eq_splat(&chunk, ws::LEAD_E3);

    let mut cand: [bool; LANE] = either(&is_e1, &either(&is_e2, &is_e3));
    if nbsp {
        cand = either(&cand, &is_c2);
    }
    let cand_bits: u32 = bitmask(&cand);
    proof {
        assert forall|k: int| 0 <= k < LANE implies chunk@[k] == s[i + k] && next1@[k] == #[trigger] s[
        (i + k) + 1] && next2@[k] == s[(i + k) + 2] by {
            assert(next1@[k] == s[(i + 1) + k]);
            assert(next2@[k] == s[(i + 2) + k]);
        }
    }
    if cand_bits == 0 {
        proof {
            assert forall|k: int| 0 <= k < LANE implies !space_at(s, i + k, 2, nbsp) && !space_at(
                s,
                i + k,
                3,
                nbsp,
            ) && !#[trigger] bits::bit(0u32, k) by {
                lemma_space_bytes(s, i + k, nbsp);
                bits::lemma_zero(k);
                assert(bits::bit(cand_bits, k) == cand@[k]);
                assert(s[(i + k) + 1] == next1@[k]);
            }
        }
        return (0, 0);
    }
    let mut two: [bool; LANE] = [false; LANE];
    let mut three: [bool; LANE] = [false; LANE];
    let mut k: usize = 0;
    while k < LANE
        invariant
            s == data@,
            i + LANE + 2 <= s.len(),
            k <= LANE,
            forall|j: int|
                0 <= j < LANE ==> chunk@[j] == s[i + j] && next1@[j] == #[trigger] s[(i + j) + 1]
                    && next2@[j] == s[(i + j) + 2],
            forall|j: int| 0 <= j < LANE ==> #[trigger] is_c2@[j] == (chunk@[j] == ws::LEAD_C2),
            forall|j: int| 0 <= j < LANE ==> #[trigger] is_e1@[j] == (chunk@[j] == ws::LEAD_E1),
            forall|j: int| 0 <= j < LANE ==> #[trigger] is_e2@[j] == (chunk@[j] == ws::LEAD_E2),
            forall|j: int| 0 <= j < LANE ==> #[trigger] is_e3@[j] == (chunk@[j] == ws::LEAD_E3),
            forall|j: int| 0 <= j < k ==> #[trigger] two@[j] == space_at(s, i + j, 2, nbsp),
            forall|j: int| 0 <= j < k ==> #[trigger] three@[j] == space_at(s, i + j, 3, nbsp),
        decreases LANE - k,
    {
        let b1: u8 = next1[k];
        let b2: u8 = next2[k];
        proof {
            lemma_space_bytes(s, i + k, nbsp);
            assert(next1@[k as int] == s[(i + k) + 1]);
        }
        // U+2000..U+2006, U+2008..U+200A (and U+2007 if GNU)
        let low: bool = 0x80 <= b2 && b2 <= 0x8A && (nbsp || b2 != 0x87);
        // U+2028, U+2029 (and U+202F if GNU)
        let sep: bool = b2 == 0xA8 || b2 == 0xA9 || (nbsp && b2 == 0xAF);
        // U+205F (and U+2060 if GNU)
        let narrow: bool = b2 == 0x9F || (nbsp && b2 == 0xA0);
        let e2_hit: bool = (b1 == 0x80 && (low || sep)) || (b1 == 0x81 && narrow);
        two[k] = nbsp && is_c2[k] && b1 == 0xA0;
        three[k] = (is_e2[k] && e2_hit) || (b2 == 0x80 && ((is_e1[k] && b1 == 0x9A) || (is_e3[k]
            && b1 == 0x80)));
        k = k + 1;
    }
    (bitmask(&two), bitmask(&three))
}

/// Some byte of `data` is no ASCII.
fn has_high_byte(data: &[u8]) -> (r: bool)
    ensures
        r == exists|k: int| 0 <= k < data@.len() && #[trigger] data@[k] >= 0x80,
{
    let mut i: usize = 0;
    while i < data.len()
        invariant
            i <= data.len(),
            forall|k: int| 0 <= k < i ==> #[trigger] data@[k] < 0x80,
        decreases data.len() - i,
    {
        if data[i] >= 0x80 {
            return true;
        }
        i = i + 1;
    }
    false
}

fn count_buf_unicode(data: &[u8], carry_in: bool, want_chars: bool, mode: WsMode) -> (r: (
    u64,
    u64,
    u64,
    u64,
    bool,
))
    requires
        mode.unicode,
    ensures
        r.0 == text::line_count(text::decoded(data@)),
        r.1 == text::word_count(text::decoded(data@), carry_in, mode),
        r.2 == data@.len(),
        r.3 == if want_chars { text::char_count(text::decoded(data@)) } else { 0 },
        r.4 == text::ends_outside(text::decoded(data@), carry_in, mode),
{
    let ghost s = data@;
    // White space of several bytes is left to the decoder.
    if has_high_byte(data) {
        return ws::count_scalar_unicode(data, carry_in, want_chars, mode);
    }
    proof {
        text::lemma_ascii_decoded(s);
        text::lemma_ascii_modes(s, carry_in, mode, plain_bytes());
        text::lemma_bytes_all_chars(s);
        lemma_lead_count_ascii(s);
    }
    if want_chars {
        return count_buf_portable(data, carry_in, true);
    }
    let mut lines: u64 = 0;
    let mut words: u64 = 0;
    let mut carry: bool = carry_in;
    let mut ws_carry: u32 = 0;
    let mut i: usize = 0;
    while data.len() - i >= LANE + 3
        invariant
            s == data@,
            forall|k: int| 0 <= k < s.len() ==> #[trigger] s[k] < 0x80,
            i <= data.len(),
            ws_carry == 0,
            lines == text::line_count(text::bytes_as_chars(s.take(i as int))),
            words == text::word_count(
                text::bytes_as_chars(s.take(i as int)),
                carry_in,
                plain_bytes(),
            ),
            carry == text::ends_outside(
                text::bytes_as_chars(s.take(i as int)),
                carry_in,
                plain_bytes(),
            ),
        decreases data.len() - i,
    {
        let chunk: [u8; LANE] = load_at(data, i);
        let nl_bits: u32 = bitmask(&eq_splat(&chunk, 0x0a));
        let ascii_ws_bits: u32 = bitmask(&ascii_ws_mask(&chunk));

        let (ws2, ws3): (u32, u32) = ws_seq_masks(data, i, mode.nbsp);
        proof {
            lemma_no_wide_space(s, i as int, mode.nbsp, ws2, ws3);
            assert(((0u64 | (0u64 << 1u64)) | (0u64 | (0u64 << 1u64) | (0u64 << 2u64))) == 0)
                by (bit_vector);
            assert(0u64 >> 32u64 == 0) by (bit_vector);
            assert(ascii_ws_bits | 0u32 | 0u32 == ascii_ws_bits) by (bit_vector);
        }
        let wide: u64 = ((ws2 as u64) | ((ws2 as u64) << 1)) | ((ws3 as u64) | ((ws3 as u64) << 1)
            | ((ws3 as u64) << 2));
        let ws_all: u32 = ascii_ws_bits | (wide as u32) | ws_carry;
        ws_carry = (wide >> 32) as u32;
        proof {
            let lane = s.subrange(i as int, i + LANE);
            lemma_lane(lane, nl_bits, ws_all, carry, plain_bytes());
            lemma_extend(s, i as int, i + LANE, carry_in, plain_bytes());
        }
        lines = lines + nl_bits.count_ones() as u64;
        words = words + (!ws_all & ((ws_all << 1) | (carry as u32))).count_ones() as u64;
        carry = (ws_all >> 31) & 1 == 1;
        i = i + LANE;
    }
    i = i + ws_carry.count_ones() as usize;
    let ghost tail = s.subrange(i as int, s.len() as int);
    let (t_lines, t_words, _, _, t_carry): (u64, u64, u64, u64, bool) = ws::count_scalar_unicode(
        &data[i..data.len()],
        carry,
        false,
        mode,
    );
    proof {
        text::lemma_ascii_decoded(tail);
        text::lemma_ascii_modes(tail, carry, mode, plain_bytes());
        lemma_extend(s, i as int, s.len() as int, carry_in, plain_bytes());
        assert(s.take(s.len() as int) =~= s);
    }
    (lines + t_lines, words + t_words, data.len() as u64, 0, t_carry)
}

/// In a text of ASCII alone no delimiter has several bytes.
proof fn lemma_no_wide_space(s: Seq<u8>, i: int, nbsp: bool, ws2: u32, ws3: u32)
    requires
        0 <= i,
        i + LANE + 2 <= s.len(),
        forall|k: int| 0 <= k < s.len() ==> #[trigger] s[k] < 0x80,
        forall|k: int|
            0 <= k < LANE ==> #[trigger] bits::bit(ws2, k) == space_at(s, i + k, 2, nbsp),
        forall|k: int|
            0 <= k < LANE ==> #[trigger] bits::bit(ws3, k) == space_at(s, i + k, 3, nbsp),
    ensures
        ws2 == 0,
        ws3 == 0,
{
    assert forall|k: int| 0 <= k < LANE implies !#[trigger] bits::bit(ws2, k) by {
        assert(s[i + k] < 0x80);
    }
    assert forall|k: int| 0 <= k < LANE implies !#[trigger] bits::bit(ws3, k) by {
        assert(s[i + k] < 0x80);
    }
    bits::lemma_no_bits(ws2);
    bits::lemma_no_bits(ws3);
}

/// `b` is printable ASCII or the plain space.
pub open spec fn printable(b: u8) -> bool {
    0x20 <= b <= 0x7e
}

/// Where the run of printable ASCII that starts at `i` ends.
pub open spec fn printable_end(s: Seq<u8>, i: int) -> int
    decreases s.len() - i,
{
    if 0 <= i < s.len() && printable(s[i]) {
        printable_end(s, i + 1)
    } else {
        i
    }
}

/// The characters of the run of printable ASCII that starts at `i`.
pub open spec fn printable_run(s: Seq<u8>, i: int) -> Seq<Unit> {
    Seq::new((printable_end(s, i) - i) as nat, |k: int| Unit::Char(s[i + k] as int))
}

/// The run as the characters of its bytes.
pub proof fn lemma_printable_run(s: Seq<u8>, i: int)
    requires
        0 <= i <= s.len(),
    ensures
        printable_run(s, i) == text::bytes_as_chars(s.subrange(i, printable_end(s, i))),
{
    lemma_printable_end(s, i);
    assert(printable_run(s, i) =~= text::bytes_as_chars(s.subrange(i, printable_end(s, i))));
}

pub proof fn lemma_printable_end(s: Seq<u8>, i: int)
    requires
        0 <= i <= s.len(),
    ensures
        i <= printable_end(s, i) <= s.len(),
        forall|k: int| i <= k < printable_end(s, i) ==> printable(#[trigger] s[k]),
    decreases s.len() - i,
{
    if i < s.len() && printable(s[i]) {
        lemma_printable_end(s, i + 1);
    }
}

/// A run that is printable up to `j` ends where the run from `j` ends.
proof fn lemma_printable_skip(s: Seq<u8>, i: int, j: int)
    requires
        0 <= i <= j <= s.len(),
        forall|k: int| i <= k < j ==> printable(#[trigger] s[k]),
    ensures
        printable_end(s, i) == printable_end(s, j),
    decreases j - i,
{
    if i < j {
        assert(printable(s[i]));
        lemma_printable_skip(s, i + 1, j);
    }
}

pub(crate) fn simple_ascii_run_scalar(data: &[u8], start: usize, carry_ws: bool) -> (r: (usize, u64, bool))
    ensures
        r.0 == printable_end(data@, start as int),
        r.1 == text::word_count(printable_run(data@, start as int), carry_ws, plain_bytes()),
        r.2 == text::ends_outside(printable_run(data@, start as int), carry_ws, plain_bytes()),
{
    let ghost s = data@;
    let ghost p = start as int;
    if start >= data.len() {
        return (start, 0, carry_ws);
    }
    let mut i: usize = start;
    let mut words: u64 = 0;
    let mut carry: bool = carry_ws;
    proof {
        lemma_printable_run(s, p);
    }
    while i < data.len()
        invariant_except_break
            start <= i <= data.len(),
        invariant
            s == data@,
            p == start,
            start <= i <= data.len(),
            printable_end(s, p) == printable_end(s, i as int),
            words == text::word_count(
                text::bytes_as_chars(s.subrange(p, i as int)),
                carry_ws,
                plain_bytes(),
            ),
            carry == text::ends_outside(
                text::bytes_as_chars(s.subrange(p, i as int)),
                carry_ws,
                plain_bytes(),
            ),
        ensures
            printable_end(s, i as int) == i,
        decreases data.len() - i,
    {
        let b: u8 = data[i];
        if !(0x20 <= b && b <= 0x7e) {
            break;
        }
        proof {
            let us = text::bytes_as_chars(s.subrange(p, i as int));
            assert(text::bytes_as_chars(s.subrange(p, i + 1)) =~= us.push(Unit::Char(b as int)));
            text::lemma_count_bounds(us, carry_ws, plain_bytes());
            text::lemma_counts_push(us, Unit::Char(b as int), carry_ws, plain_bytes());
        }
        let ws: bool = b == 0x20;
        if !ws && carry {
            words = words + 1;
        }
        carry = ws;
        i = i + 1;
    }
    (i, words, carry)
}

/// The masks of the printable bytes and of the spaces of a lane give the
/// words of its first `n` bytes, which are printable.
proof fn lemma_printable_lane(lane: Seq<u8>, n: int, sp_bits: u32, mask: u32, carry: bool)
    requires
        lane.len() == LANE,
        0 < n <= LANE,
        forall|k: int| 0 <= k < n ==> printable(#[trigger] lane[k]),
        forall|k: int| 0 <= k < LANE ==> #[trigger] bits::bit(sp_bits, k) == (lane[k] == 0x20),
        forall|k: int| 0 <= k < LANE ==> #[trigger] bits::bit(mask, k) == (k < n),
    ensures
        ({
            let sp = sp_bits & mask;
            let c = if carry { 1u32 } else { 0u32 };
            let us = text::bytes_as_chars(lane.take(n));
            &&& bits::ones(!sp & ((sp << 1) | c) & mask) == text::word_count(
                us,
                carry,
                plain_bytes(),
            )
            &&& 0 <= bits::ones(!sp & ((sp << 1) | c) & mask) <= LANE
            &&& bits::bit(sp, n - 1) == text::ends_outside(us, carry, plain_bytes())
        }),
{
    let sp = sp_bits & mask;
    let c = if carry { 1u32 } else { 0u32 };
    let raw = !sp & ((sp << 1) | c);
    let starts = raw & mask;
    let us = text::bytes_as_chars(lane);
    assert(us.take(n) =~= text::bytes_as_chars(lane.take(n)));
    lemma_counts_are_hits(us, n, carry, plain_bytes());
    bits::lemma_ones(starts);
    assert forall|k: int| 0 <= k < LANE implies #[trigger] bits::bit(starts, k) == (k < n && word_start(
        us,
        k,
        carry,
        plain_bytes(),
    )) by {
        bits::lemma_starts(sp, c, k);
        bits::lemma_not_and(raw, mask, k);
        bits::lemma_not_and(sp_bits, mask, k);
        assert(bits::bit(sp_bits, k) == (lane[k] == 0x20));
        assert(bits::bit(mask, k) == (k < n));
        if k < n {
            assert(printable(lane[k]));
        }
        if k > 0 {
            bits::lemma_not_and(sp_bits, mask, k - 1);
            assert(bits::bit(sp_bits, k - 1) == (lane[k - 1] == 0x20));
            assert(bits::bit(mask, k - 1) == (k - 1 < n));
            if k - 1 < n {
                assert(printable(lane[k - 1]));
            }
        }
    }
    bits::lemma_hits_tail(|k: int| bits::bit(starts, k), n, LANE as int);
    bits::lemma_hits_same(
        |k: int| bits::bit(starts, k),
        |k: int| word_start(us, k, carry, plain_bytes()),
        n,
    );
    bits::lemma_not_and(sp_bits, mask, n - 1);
    assert(bits::bit(sp_bits, n - 1) == (lane[n - 1] == 0x20));
    assert(bits::bit(mask, n - 1));
    assert(printable(lane[n - 1]));
}

/// Scan the run of printable ASCII that starts at `start`, counting the words
/// that start in it. Returns (end, words, carry).
pub fn simple_ascii_run(data: &[u8], start: usize, carry_ws: bool, _avx2: bool) -> (r: (
    usize,
    u64,
    bool,
))
    ensures
        r.0 == printable_end(data@, start as int),
        r.1 == text::word_count(printable_run(data@, start as int), carry_ws, plain_bytes()),
        r.2 == text::ends_outside(printable_run(data@, start as int), carry_ws, plain_bytes()),
{
    let ghost s = data@;
    let ghost p = start as int;
    if start >= data.len() {
        return (start, 0, carry_ws);
    }
    let mut i: usize = start;
    let mut words: u64 = 0;
    let mut carry: bool = carry_ws;
    proof {
        lemma_printable_run(s, p);
    }
    while data.len() - i >= LANE
        invariant
            s == data@,
            p == start,
            start <= i <= data.len(),
            forall|k: int| p <= k < i ==> printable(#[trigger] s[k]),
            words == text::word_count(
                text::bytes_as_chars(s.subrange(p, i as int)),
                carry_ws,
                plain_bytes(),
            ),
            carry == text::ends_outside(
                text::bytes_as_chars(s.subrange(p, i as int)),
                carry_ws,
                plain_bytes(),
            ),
        decreases data.len() - i,
    {
        let ghost at = i as int;
        let ghost lane = s.subrange(at, at + LANE);
        let chunk: [u8; LANE] = load_at(data, i);
        let simple: u32 = bitmask(&between(&chunk, 0x20, 0x7e));
        let bad: u32 = !simple;
        let sp: u32 = bitmask(&eq_splat(&chunk, 0x20));
        proof {
            vstd::std_specs::bits::axiom_u32_trailing_zeros(bad);
        }
        let n: usize = if bad == 0 {
            LANE
        } else {
            bad.trailing_zeros() as usize
        };
        proof {
            lemma_first_bad(lane, simple, n as int);
        }
        if n > 0 {
            let mask: u32 = if n == LANE {
                u32::MAX
            } else {
                proof {
                    bits::lemma_low_mask(n as int);
                }
                (1u32 << (n as u32)) - 1
            };
            proof {
                bits::lemma_full_mask();
                lemma_printable_lane(lane, n as int, sp, mask, carry);
                let a = text::bytes_as_chars(s.subrange(p, at));
                let b = text::bytes_as_chars(lane.take(n as int));
                assert(text::bytes_as_chars(s.subrange(p, at + n)) =~= a + b);
                text::lemma_word_count_concat(a, b, carry_ws, plain_bytes());
                text::lemma_ends_outside_concat(a, b, carry_ws, plain_bytes());
                text::lemma_count_bounds(a + b, carry_ws, plain_bytes());
            }
            let sp: u32 = sp & mask;
            let prev: u32 = (sp << 1) | (carry as u32);
            words = words + (!sp & prev & mask).count_ones() as u64;
            carry = (sp >> ((n - 1) as u32)) & 1 == 1;
        }
        i = i + n;
        proof {
            assert forall|k: int| p <= k < i implies printable(#[trigger] s[k]) by {
                if k >= at {
                    assert(s[k] == lane[k - at]);
                }
            }
        }
        if bad != 0 {
            proof {
                assert(s[i as int] == lane[n as int]);
                lemma_printable_skip(s, p, i as int);
                lemma_printable_run(s, p);
            }
            return (i, words, carry);
        }
    }
    let ghost mid = i as int;
    let (end, w, carry_out): (usize, u64, bool) = simple_ascii_run_scalar(data, i, carry);
    proof {
        lemma_printable_skip(s, p, mid);
        lemma_printable_run(s, mid);
        lemma_printable_end(s, mid);
        let a = text::bytes_as_chars(s.subrange(p, mid));
        let b = text::bytes_as_chars(s.subrange(mid, end as int));
        assert(text::bytes_as_chars(s.subrange(p, end as int)) =~= a + b);
        text::lemma_word_count_concat(a, b, carry_ws, plain_bytes());
        text::lemma_ends_outside_concat(a, b, carry_ws, plain_bytes());
        text::lemma_count_bounds(a + b, carry_ws, plain_bytes());
    }
    (end, words + w, carry_out)
}

/// The first lane that is not printable is the lowest bit of the complement.
proof fn lemma_first_bad(lane: Seq<u8>, simple: u32, n: int)
    requires
        lane.len() == LANE,
        forall|k: int| 0 <= k < LANE ==> #[trigger] bits::bit(simple, k) == printable(lane[k]),
        n == if !simple == 0 { LANE as int } else { (!simple).trailing_zeros() as int },
    ensures
        0 <= n <= LANE,
        n == LANE <==> !simple == 0,
        forall|k: int| 0 <= k < n ==> printable(#[trigger] lane[k]),
        n < LANE ==> !printable(lane[n]),
{
    let bad = !simple;
    vstd::std_specs::bits::axiom_u32_trailing_zeros(bad);
    assert forall|k: int| 0 <= k < n implies printable(#[trigger] lane[k]) by {
        bits::lemma_not_and(simple, simple, k);
        if bad == 0 {
            bits::lemma_zero(k);
        } else {
            assert((bad >> (k as u32)) & 1u32 == 0u32);
        }
        assert(!bits::bit(bad, k));
        assert(bits::bit(simple, k) == printable(lane[k]));
    }
    if n < LANE {
        bits::lemma_not_and(simple, simple, n);
        assert(bits::bit(bad, n));
        assert(bits::bit(simple, n) == printable(lane[n]));
    }
}

} // verus!
