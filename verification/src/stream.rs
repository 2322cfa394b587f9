//! Counting a text that arrives in pieces.
use crate::count;
use crate::count::{count_complicated, Counts};
use crate::simd;
use crate::text;
use crate::text::Unit;
use crate::ws;
use crate::ws::{WidthCache, WsMode};
use vstd::prelude::*;
use vstd::slice::slice_to_vec;

verus! {

/// How many bytes a sequence that starts with `lead` would have: two to six.
/// 0 for a byte that starts no sequence of several bytes.
pub open spec fn awaited(lead: u8) -> int {
    if 0xC0 <= lead < 0xE0 {
        2
    } else if 0xE0 <= lead < 0xF0 {
        3
    } else if 0xF0 <= lead < 0xF8 {
        4
    } else if 0xF8 <= lead < 0xFC {
        5
    } else if 0xFC <= lead < 0xFE {
        6
    } else {
        0
    }
}

/// The greatest number of bytes in a sequence of RFC 3629.
pub const SHORT: usize = 4;

/// The greatest number of bytes in any sequence.
pub const LONG: usize = 6;

/// A sequence of several bytes, `most` at most, starts at `j` and is cut off
/// by the end.
pub open spec fn open_at(s: Seq<u8>, j: int, most: usize) -> bool {
    &&& 0 <= j < s.len()
    &&& s.len() - j < awaited(s[j]) <= most
    &&& forall|k: int| j < k < s.len() ==> ws::continuation(#[trigger] s[k])
}

/// No sequence of several bytes, `most` at most, is cut off by the end.
pub open spec fn settled(s: Seq<u8>, most: usize) -> bool {
    forall|j: int| !open_at(s, j, most)
}

/// How many bytes at the end of `s` belong to a sequence of several bytes,
/// `most` at most, that the end cuts off.
pub open spec fn held(s: Seq<u8>, most: usize, mode: WsMode) -> int {
    if mode.unicode && !settled(s, most) {
        s.len() - choose|j: int| open_at(s, j, most)
    } else {
        0
    }
}

/// Only one sequence can be cut off by the end.
pub proof fn lemma_open_once(s: Seq<u8>, i: int, j: int, most: usize)
    requires
        open_at(s, i, most),
        open_at(s, j, most),
    ensures
        i == j,
{
    if i < j {
        assert(ws::continuation(s[j]));
    } else if j < i {
        assert(ws::continuation(s[i]));
    }
}

proof fn lemma_awaited_masks(b: u8)
    by (bit_vector)
    ensures
        (b & 0xE0 == 0xC0) == (0xC0 <= b && b < 0xE0),
        (b & 0xF0 == 0xE0) == (0xE0 <= b && b < 0xF0),
        (b & 0xF8 == 0xF0) == (0xF0 <= b && b < 0xF8),
        (b & 0xFC == 0xF8) == (0xF8 <= b && b < 0xFC),
        (b & 0xFE == 0xFC) == (0xFC <= b && b < 0xFE),
{
}

/// Number of bytes at the tail of a buffer that may be the start of a
/// character of two to four bytes continued in the next read. Never more
/// than 3.
pub fn incomplete_tail(data: &[u8], mode: WsMode) -> (r: usize)
    ensures
        r == held(data@, SHORT, mode),
        r <= 3,
        r <= data@.len(),
        r > 0 ==> open_at(data@, data@.len() - r, SHORT),
        r == 0 && mode.unicode ==> settled(data@, SHORT),
{
    if !mode.unicode {
        return 0;
    }
    let ghost s = data@;
    let n: usize = data.len();
    let mut i: usize = n;
    let mut steps: usize = 0;
    while i > 0 && steps < 3
        invariant
            s == data@,
            n == s.len(),
            mode.unicode,
            i <= n,
            steps == n - i,
            steps <= 3,
            forall|k: int| i <= k < n ==> ws::continuation(#[trigger] s[k]),
        decreases i,
    {
        i = i - 1;
        steps = steps + 1;
        let b: u8 = data[i];
        proof {
            ws::lemma_continuation_mask(b);
            lemma_awaited_masks(b);
        }
        if (b & 0xC0) == 0x80 {
            continue;
        }
        let need: usize = if b & 0xE0 == 0xC0 {
            2
        } else if b & 0xF0 == 0xE0 {
            3
        } else if b & 0xF8 == 0xF0 {
            4
        } else {
            0
        };
        proof {
            lemma_open_at_lead(s, i as int, SHORT);
            assert(open_at(s, i as int, SHORT) == (n - i < need));
        }
        return if n - i < need {
            n - i
        } else {
            0
        };
    }
    0
}

/// The last byte that continues no sequence is the one place where a sequence
/// that is cut off can start.
proof fn lemma_open_at_lead(s: Seq<u8>, i: int, most: usize)
    requires
        0 <= i < s.len(),
        !ws::continuation(s[i]),
        forall|k: int| i < k < s.len() ==> ws::continuation(#[trigger] s[k]),
    ensures
        open_at(s, i, most) == (s.len() - i < awaited(s[i]) <= most),
        settled(s, most) == !open_at(s, i, most),
        open_at(s, i, most) ==> forall|mode: WsMode|
            #![trigger held(s, most, mode)]
            mode.unicode ==> held(s, most, mode) == s.len() - i,
{
    assert forall|j: int| open_at(s, j, most) implies j == i by {
        if j < i {
            assert(ws::continuation(s[i]));
        }
    }
    if open_at(s, i, most) {
        lemma_open_once(s, i, choose|j: int| open_at(s, j, most), most);
    }
}

/// Number of bytes at the tail of a buffer that may be the start of a
/// multi-byte character continued in the next read. Never more than 5.
pub fn unfinished_tail(data: &[u8], mode: WsMode) -> (r: usize)
    ensures
        r == held(data@, LONG, mode),
        r <= 5,
        r <= data@.len(),
        r > 0 ==> mode.unicode && open_at(data@, data@.len() - r, LONG),
        r == 0 && mode.unicode ==> settled(data@, LONG),
{
    if !mode.unicode {
        return 0;
    }
    let ghost s = data@;
    let n: usize = data.len();
    let short: usize = incomplete_tail(data, mode);
    if short > 0 {
        proof {
            let j = n - short;
            assert(open_at(s, j, LONG));
            lemma_open_once(s, j, choose|j: int| open_at(s, j, LONG), LONG);
        }
        return short;
    }
    // What is cut off, if anything is, has five or six bytes.
    let mut i: usize = n;
    let mut steps: usize = 0;
    while i > 0 && steps < 5
        invariant
            s == data@,
            n == s.len(),
            mode.unicode,
            settled(s, SHORT),
            i <= n,
            steps == n - i,
            steps <= 5,
            forall|k: int| i <= k < n ==> ws::continuation(#[trigger] s[k]),
        decreases i,
    {
        i = i - 1;
        steps = steps + 1;
        let b: u8 = data[i];
        proof {
            ws::lemma_continuation_mask(b);
            lemma_awaited_masks(b);
        }
        if (b & 0xC0) == 0x80 {
            continue;
        }
        let need: usize = if b & 0xFC == 0xF8 {
            5
        } else if b & 0xFE == 0xFC {
            6
        } else {
            0
        };
        proof {
            lemma_open_at_lead(s, i as int, SHORT);
            lemma_open_at_lead(s, i as int, LONG);
            assert(open_at(s, i as int, LONG) == (n - i < need));
        }
        return if n - i < need {
            n - i
        } else {
            0
        };
    }
    0
}

// ---------------------------------------------------------------------------
// Where a stream cuts its text.

/// `s` can be counted up to `n`: what is left is a sequence that the end cuts
/// off.
#[verifier::opaque]
spec fn counted_up_to(s: Seq<u8>, n: int, mode: WsMode) -> bool {
    &&& 0 <= n <= s.len() <= n + 5
    &&& n < s.len() ==> mode.unicode && open_at(s, n, LONG)
    &&& n == s.len() && mode.unicode ==> settled(s, LONG)
}

/// How far a text can be counted when more bytes arrive: `data` is what was
/// left, and what has arrived behind it.
proof fn lemma_counted_further(s: Seq<u8>, n: int, mode: WsMode, chunk: Seq<u8>, data: Seq<u8>)
    requires
        counted_up_to(s, n, mode),
        data == (s + chunk).skip(n),
        mode.unicode ==> held(data, LONG, mode) <= 5,
    ensures
        0 <= n <= s.len() <= n + 5,
        counted_up_to(s + chunk, (s + chunk).len() - held(data, LONG, mode), mode),
{
    reveal(counted_up_to);
    let all = s + chunk;
    if mode.unicode {
        assert forall|j: int| open_at(all, j, LONG) implies j >= n && open_at(
            data,
            j - n,
            LONG,
        ) by {
            if j < n {
                if n < s.len() {
                    assert(all[n] == s[n]);
                    assert(ws::continuation(all[n]));
                } else {
                    assert forall|k: int| j < k < n implies ws::continuation(#[trigger] s[k]) by {
                        assert(all[k] == s[k]);
                    }
                    assert(open_at(s, j, LONG));
                }
            }
            assert forall|k: int| j - n < k < data.len() implies ws::continuation(
                #[trigger] data[k],
            ) by {
                assert(ws::continuation(all[n + k]));
            }
        }
        if !settled(data, LONG) {
            let j = choose|j: int| open_at(data, j, LONG);
            assert forall|k: int| n + j < k < all.len() implies ws::continuation(
                #[trigger] all[k],
            ) by {
                assert(ws::continuation(data[k - n]));
            }
            assert(open_at(all, n + j, LONG));
        } else {
            assert(settled(all, LONG));
        }
    }
}

/// What stands behind the counted bytes is read by itself: no character goes
/// on behind them.
proof fn lemma_next_piece(s: Seq<u8>, counted: Seq<u8>, mode: WsMode, piece: Seq<u8>)
    requires
        counted_up_to(s, counted.len() as int, mode),
        counted == s.take(counted.len() as int),
        counted.len() < s.len() && piece.len() > 0 ==> piece[0] == s[counted.len() as int],
    ensures
        text::units(counted + piece, mode) == text::units(counted, mode) + text::units(
            piece,
            mode,
        ),
        text::units(counted, mode).len() <= counted.len(),
{
    reveal(counted_up_to);
    let t = counted + piece;
    let n = counted.len() as int;
    assert(t.take(n) =~= counted);
    assert(t.skip(n) =~= piece);
    text::lemma_units_len(counted, 0);
    if mode.unicode {
        if n < s.len() || piece.len() == 0 {
            text::lemma_clean_before_lead(t, n);
        } else {
            assert(counted =~= s);
            assert forall|j: int| 0 <= j < n && #[trigger] ws::char_at(t, j) implies j
                + ws::sequence_len(t[j]) <= n by {
                if j + ws::sequence_len(t[j]) > n {
                    assert forall|k: int| j < k < n implies ws::continuation(#[trigger] s[k]) by {
                        assert(ws::continuation(t[k]));
                    }
                    assert(t[j] == s[j]);
                    assert(open_at(s, j, LONG));
                }
            }
        }
        text::lemma_decoded_split(t, n);
    } else {
        text::lemma_bytes_split(t, n);
    }
}

// ---------------------------------------------------------------------------
// The counter.

/// Count one piece: with columns if they are wanted, else without.
fn count_piece<W: Fn(u32) -> i32>(
    piece: &[u8],
    want_chars: bool,
    want_columns: bool,
    carry_in: (bool, i64),
    mode: WsMode,
    wcwidth: &W,
    cache: &mut WidthCache,
) -> (r: (Counts, bool, i64))
    requires
        want_columns ==> count::columns_fit(carry_in.1 as int, piece@.len() as int),
        ws::is_width_function(wcwidth),
        old(cache).agrees(ws::width_of(wcwidth)),
    ensures
        ({
            let us = text::units(piece@, mode);
            let w = ws::width_of(wcwidth);
            let start = carry_in.1 as int;
            &&& r.0.lines == text::line_count(us)
            &&& r.0.words == text::word_count(us, carry_in.0, mode)
            &&& r.0.chars == if want_chars { text::char_count(us) } else { 0 }
            &&& r.0.bytes == piece@.len()
            &&& r.1 == text::ends_outside(us, carry_in.0, mode)
            &&& want_columns ==> {
                &&& r.0.max_line_length == text::longest_return(us, start, mode.unicode, w)
                &&& r.2 == text::column_after(us, start, mode.unicode, w)
                &&& 0 <= r.2 <= carry_in.1 + 64 * piece@.len()
            }
            &&& !want_columns ==> r.0.max_line_length == 0 && r.2 == carry_in.1
        }),
        final(cache).agrees(ws::width_of(wcwidth)),
{
    if want_columns {
        count_complicated(piece, want_chars, carry_in, mode, wcwidth, cache)
    } else {
        let (lines, words, bytes, chars, carry): (u64, u64, u64, u64, bool) = simd::count_buf_mode(
            piece,
            carry_in.0,
            want_chars,
            mode,
        );
        (Counts { lines, words, chars, bytes, max_line_length: 0 }, carry, carry_in.1)
    }
}

/// `total` holds the counts of `us`, read from the start of a line, with the
/// longest line that has ended; `carry` holds where the reader stands.
#[verifier::opaque]
spec fn tallied(
    us: Seq<Unit>,
    want_chars: bool,
    want_columns: bool,
    mode: WsMode,
    width: spec_fn(u32) -> int,
    total: Counts,
    carry: (bool, i64),
) -> bool {
    &&& total.lines == text::line_count(us)
    &&& total.words == text::word_count(us, true, mode)
    &&& total.chars == if want_chars { text::char_count(us) } else { 0 }
    &&& carry.0 == text::ends_outside(us, true, mode)
    &&& want_columns ==> {
        &&& total.max_line_length == text::longest_return(us, 0, mode.unicode, width)
        &&& carry.1 == text::column_after(us, 0, mode.unicode, width)
        &&& 0 <= carry.1 <= 64 * total.bytes
    }
    &&& !want_columns ==> total.max_line_length == 0 && carry.1 == 0
}

/// Count one more piece behind `us`.
fn add_piece<W: Fn(u32) -> i32>(
    us: Ghost<Seq<Unit>>,
    total: Counts,
    carry: (bool, i64),
    piece: &[u8],
    want_chars: bool,
    want_columns: bool,
    mode: WsMode,
    wcwidth: &W,
    cache: &mut WidthCache,
) -> (r: (Counts, bool, i64))
    requires
        us@.len() <= total.bytes,
        total.bytes + piece@.len() <= u64::MAX,
        want_columns ==> count::columns_fit(0, total.bytes + piece@.len()),
        ws::is_width_function(wcwidth),
        old(cache).agrees(ws::width_of(wcwidth)),
        tallied(us@, want_chars, want_columns, mode, ws::width_of(wcwidth), total, carry),
    ensures
        tallied(
            us@ + text::units(piece@, mode),
            want_chars,
            want_columns,
            mode,
            ws::width_of(wcwidth),
            r.0,
            (r.1, r.2),
        ),
        r.0.bytes == total.bytes + piece@.len(),
        final(cache).agrees(ws::width_of(wcwidth)),
{
    let ghost part = text::units(piece@, mode);
    reveal(tallied);
    let (c, carry_ws, carry_pos): (Counts, bool, i64) = count_piece(
        piece,
        want_chars,
        want_columns,
        carry,
        mode,
        wcwidth,
        cache,
    );
    proof {
        count::lemma_append(us@, part, true, 0, mode, ws::width_of(wcwidth));
        text::lemma_units_len(piece@, 0);
        text::lemma_count_bounds(us@, true, mode);
        text::lemma_count_bounds(part, carry.0, mode);
    }
    (total.merge(&c), carry_ws, carry_pos)
}

/// What came of an attempt to read.
pub enum ReadEvent<'b> {
    /// Bytes; none at the end.
    Data(&'b [u8]),
    /// The attempt was interrupted by a signal.
    Interrupted,
    /// The attempt failed.
    Failed,
}

/// Counts a text that arrives in pieces. A sequence of several bytes that the
/// end of a piece cuts off is held back, so that it is decoded as one
/// character once the rest of it arrives.
pub struct StreamCounter<'a, W: Fn(u32) -> i32> {
    want_chars: bool,
    want_columns: bool,
    mode: WsMode,
    wcwidth: &'a W,
    cache: WidthCache,
    pending: Vec<u8>,
    total: Counts,
    carry_ws: bool,
    carry_pos: i64,
    counted: Ghost<Seq<u8>>,
}

impl<'a, W: Fn(u32) -> i32> StreamCounter<'a, W> {
    /// Characters are counted.
    pub closed spec fn wants_chars(&self) -> bool {
        self.want_chars
    }

    /// Line lengths are measured.
    pub closed spec fn wants_columns(&self) -> bool {
        self.want_columns
    }

    /// How the text is read.
    pub closed spec fn reads_as(&self) -> WsMode {
        self.mode
    }

    /// The widths of the characters.
    pub closed spec fn width(&self) -> spec_fn(u32) -> int {
        ws::width_of(self.wcwidth)
    }

    /// All bytes that have arrived.
    pub closed spec fn text(&self) -> Seq<u8> {
        self.counted@ + self.pending@
    }

    /// A text of `len` bytes can be counted: its columns fit an `i64`, where
    /// they are measured, and its counts fit a `u64`.
    pub open spec fn fits(&self, len: nat) -> bool {
        if self.wants_columns() {
            count::columns_fit(0, len as int)
        } else {
            len <= u64::MAX
        }
    }

    /// The counts so far are those of the bytes that are not held back, and
    /// what is held back is a sequence that the end cuts off.
    pub closed spec fn valid(&self) -> bool {
        let us = text::units(self.counted@, self.mode);
        let n = self.counted@.len() as int;
        &&& ws::is_width_function(self.wcwidth)
        &&& self.cache.agrees(ws::width_of(self.wcwidth))
        &&& self.fits(self.text().len())
        &&& counted_up_to(self.text(), n, self.mode)
        &&& self.total.bytes == n
        &&& tallied(
            us,
            self.want_chars,
            self.want_columns,
            self.mode,
            ws::width_of(self.wcwidth),
            self.total,
            (self.carry_ws, self.carry_pos),
        )
    }

    /// A counter that no byte has arrived at.
    pub fn new(want_chars: bool, want_columns: bool, mode: WsMode, wcwidth: &'a W) -> (c: Self)
        requires
            ws::is_width_function(wcwidth),
        ensures
            c.valid(),
            c.wants_chars() == want_chars,
            c.wants_columns() == want_columns,
            c.reads_as() == mode,
            c.width() == ws::width_of(wcwidth),
            c.text() == Seq::<u8>::empty(),
    {
        let cache: WidthCache = WidthCache::new();
        let c = StreamCounter {
            want_chars,
            want_columns,
            mode,
            wcwidth,
            cache,
            pending: Vec::new(),
            total: Counts::default(),
            carry_ws: true,
            carry_pos: 0,
            counted: Ghost(Seq::empty()),
        };
        proof {
            assert(c.text() =~= Seq::<u8>::empty());
            assert(text::units(c.counted@, mode) =~= Seq::<Unit>::empty());
            reveal(counted_up_to);
            reveal(tallied);
        }
        c
    }

    /// Can `n` more bytes be counted?
    pub fn has_room(&self, n: usize) -> (r: bool)
        requires
            self.valid(),
        ensures
            r == self.fits(self.text().len() + n as nat),
    {
        let limit: u64 = if self.want_columns {
            0x1ff_ffff_ffff_ffff
        } else {
            u64::MAX
        };
        // What is held back has five bytes at most.
        let held: u64 = self.pending.len() as u64;
        let left: u64 = limit - self.total.bytes;
        left >= held && left - held >= n as u64
    }

    /// Count one more piece of the text.
    pub fn feed(&mut self, chunk: &[u8])
        requires
            old(self).valid(),
            old(self).fits(old(self).text().len() + chunk@.len()),
        ensures
            final(self).valid(),
            final(self).wants_chars() == old(self).wants_chars(),
            final(self).wants_columns() == old(self).wants_columns(),
            final(self).reads_as() == old(self).reads_as(),
            final(self).width() == old(self).width(),
            final(self).text() == old(self).text() + chunk@,
    {
        if self.pending.len() == 0 {
            assert(self.pending@ + chunk@ =~= chunk@);
            self.go_on(chunk, Ghost(chunk@));
        } else {
            let mut joined: Vec<u8> = Vec::new();
            joined.extend_from_slice(self.pending.as_slice());
            joined.extend_from_slice(chunk);
            assert(joined@ =~= self.pending@ + chunk@);
            self.go_on(joined.as_slice(), Ghost(chunk@));
        }
    }

    /// Count `data`: what has been held back, and `chunk` behind it.
    fn go_on(&mut self, data: &[u8], chunk: Ghost<Seq<u8>>)
        requires
            old(self).valid(),
            old(self).fits(old(self).text().len() + chunk@.len()),
            data@ == old(self).pending@ + chunk@,
        ensures
            final(self).valid(),
            final(self).want_chars == old(self).want_chars,
            final(self).want_columns == old(self).want_columns,
            final(self).mode == old(self).mode,
            final(self).wcwidth == old(self).wcwidth,
            final(self).text() == old(self).text() + chunk@,
    {
        let ghost before = self.counted@;
        let ghost all = self.text() + chunk@;
        let hold: usize = unfinished_tail(data, self.mode);
        let end: usize = data.len() - hold;
        let piece: &[u8] = &data[0..end];
        proof {
            let n = before.len() as int;
            assert(all.skip(n) =~= data@);
            assert(self.text().take(n) =~= before);
            lemma_counted_further(self.text(), n, self.mode, chunk@, data@);
            lemma_next_piece(self.text(), before, self.mode, piece@);
        }
        let (total, carry_ws, carry_pos): (Counts, bool, i64) = add_piece(
            Ghost(text::units(before, self.mode)),
            self.total,
            (self.carry_ws, self.carry_pos),
            piece,
            self.want_chars,
            self.want_columns,
            self.mode,
            self.wcwidth,
            &mut self.cache,
        );
        self.total = total;
        self.carry_ws = carry_ws;
        self.carry_pos = carry_pos;
        self.pending = slice_to_vec(&data[end..data.len()]);
        self.counted = Ghost(before + piece@);
        assert(self.text() =~= all);
    }

    /// What an attempt to read more of the text means: its bytes are counted,
    /// an interruption is no end, and nothing or a failure is. Returns whether
    /// to read on. What has been counted before a failure stays counted.
    pub fn on_read(&mut self, event: ReadEvent<'_>) -> (go_on: bool)
        requires
            old(self).valid(),
            event matches ReadEvent::Data(bytes) ==> old(self).fits(
                old(self).text().len() + bytes@.len(),
            ),
        ensures
            final(self).valid(),
            final(self).wants_chars() == old(self).wants_chars(),
            final(self).wants_columns() == old(self).wants_columns(),
            final(self).reads_as() == old(self).reads_as(),
            final(self).width() == old(self).width(),
            go_on == match event {
                ReadEvent::Data(bytes) => bytes@.len() > 0,
                ReadEvent::Interrupted => true,
                ReadEvent::Failed => false,
            },
            event matches ReadEvent::Data(bytes) ==> final(self).text() == old(self).text()
                + bytes@,
            !(event is Data && go_on) ==> *final(self) == *old(self),
    {
        match event {
            ReadEvent::Data(bytes) => {
                if bytes.len() == 0 {
                    return false;
                }
                self.feed(bytes);
                true
            },
            ReadEvent::Interrupted => true,
            ReadEvent::Failed => false,
        }
    }

    /// The counts of the text that has arrived, as if it had come in one
    /// piece. Whatever is still held back is an encoding error at the end of
    /// it.
    pub fn finish(self) -> (r: Counts)
        requires
            self.valid(),
        ensures
            ({
                let mode = self.reads_as();
                let whole = text::units(self.text(), mode);
                &&& r.lines == text::line_count(whole)
                &&& r.words == text::word_count(whole, true, mode)
                &&& r.chars == if self.wants_chars() { text::char_count(whole) } else { 0 }
                &&& r.bytes == self.text().len()
                &&& r.max_line_length == if self.wants_columns() {
                    text::longest_line(whole, mode.unicode, self.width())
                } else {
                    0
                }
            }),
    {
        let mut cache: WidthCache = self.cache;
        proof {
            assert(self.text().take(self.counted@.len() as int) =~= self.counted@);
            lemma_next_piece(self.text(), self.counted@, self.mode, self.pending@);
        }
        let (mut total, _, carry_pos): (Counts, bool, i64) = add_piece(
            Ghost(text::units(self.counted@, self.mode)),
            self.total,
            (self.carry_ws, self.carry_pos),
            self.pending.as_slice(),
            self.want_chars,
            self.want_columns,
            self.mode,
            self.wcwidth,
            &mut cache,
        );
        reveal(tallied);
        if self.want_columns && carry_pos > total.max_line_length {
            total.max_line_length = carry_pos;
        }
        total
    }
}

} // verus!
