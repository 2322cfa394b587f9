//! Counting a text in chunks that are spread across threads.
use crate::count;
use crate::count::{count_complicated, trailing_ws, Counts};
use crate::simd;
use crate::strings;
use crate::strings::decimal;
use crate::text;
use crate::text::Unit;
use crate::ws;
use crate::ws::{WidthCache, WsMode};
use rayon::iter::{IntoParallelRefIterator, ParallelIterator};
use vstd::prelude::*;
use vstd::string::*;

verus! {

/// `rayon::current_num_threads`: how many threads work is spread across. The
/// machine and the environment decide it, so nothing is claimed of it. Rayon
/// starts its threads here, and panics where the machine refuses them.
#[verifier::external_body]
fn current_num_threads() -> (n: usize) {
    rayon::current_num_threads()
}

/// How many threads work is spread across, one at least.
fn available_threads() -> (n: usize)
    ensures
        n >= 1,
{
    at_least_one(current_num_threads())
}

/// The number of threads to plan for where `found` were found: as many, and
/// one where there were none.
pub fn at_least_one(found: usize) -> (n: usize)
    ensures
        n == if found >= 1 { found } else { 1 },
{
    if found >= 1 {
        found
    } else {
        1
    }
}

/// `rayon`'s `par_iter().map(f).collect()` on a vector: `f` is called on every
/// item, on some thread, and the outcomes come back in the order of the items.
#[verifier::external_body]
fn par_map<T: Sync, R: Send, F: Fn(&T) -> R + Sync + Send>(items: &Vec<T>, f: F) -> (r: Vec<R>)
    requires
        forall|i: int| 0 <= i < items@.len() ==> call_requires(f, (&#[trigger] items@[i],)),
    ensures
        r@.len() == items@.len(),
        forall|i: int|
            0 <= i < items@.len() ==> call_ensures(f, (&items@[i],), #[trigger] r@[i]),
{
    items.par_iter().map(f).collect()
}

/// The least number of bytes in a chunk: 256 KiB.
pub const CHUNK_MIN: usize = 0x4_0000;

/// The greatest number of bytes in a chunk: 16 MiB.
pub const CHUNK_MAX: usize = 0x100_0000;

/// `v` brought into the range from `low` to `high`.
pub open spec fn clamped(v: int, low: int, high: int) -> int {
    if v < low {
        low
    } else if v > high {
        high
    } else {
        v
    }
}

/// The size to which chunks are cut: four for each thread, but none smaller
/// than `low` or greater than `high` bytes.
pub open spec fn target_size(len: int, threads: int, low: int, high: int) -> int {
    clamped(len / (if 4 * threads > 1 { 4 * threads } else { 1 }), low, high)
}

fn chunk_size(len: usize, threads: usize, low: usize, high: usize) -> (size: usize)
    requires
        0 < low <= high,
    ensures
        size == target_size(len as int, threads as int, low as int, high as int),
        size > 0,
{
    // So many threads leave less than one byte for each chunk.
    if threads > usize::MAX / 4 {
        proof {
            let t = 4 * threads as int;
            assert(len as int / t <= 0) by (nonlinear_arith)
                requires
                    0 <= len < t,
            ;
            assert(len as int / t >= 0) by (nonlinear_arith)
                requires
                    0 <= len < t,
            ;
        }
        return low;
    }
    let target: usize = if threads >= 1 {
        threads * 4
    } else {
        1
    };
    let each: usize = len / target;
    if each < low {
        low
    } else if each > high {
        high
    } else {
        each
    }
}

/// The first position from `p` on that holds no continuation byte.
pub open spec fn past_continuation(s: Seq<u8>, p: int) -> int
    decreases s.len() - p,
{
    if 0 <= p < s.len() && ws::continuation(s[p]) {
        past_continuation(s, p + 1)
    } else {
        p
    }
}

/// Where a chunk that starts at `off` ends: `size` bytes further, and in a
/// multi-byte locale not inside of a character.
pub open spec fn chunk_end(s: Seq<u8>, off: int, size: int, unicode: bool) -> int {
    if off + size >= s.len() {
        s.len() as int
    } else if unicode {
        past_continuation(s, off + size)
    } else {
        off + size
    }
}

/// Where the chunks from `off` on end.
pub open spec fn chunk_ends(s: Seq<u8>, off: int, size: int, unicode: bool) -> Seq<int>
    decreases s.len() - off,
{
    let end = chunk_end(s, off, size, unicode);
    if 0 <= off < end <= s.len() {
        seq![end] + chunk_ends(s, end, size, unicode)
    } else {
        Seq::empty()
    }
}

proof fn lemma_past_continuation(s: Seq<u8>, p: int)
    requires
        0 <= p <= s.len(),
    ensures
        p <= past_continuation(s, p) <= s.len(),
        past_continuation(s, p) < s.len() ==> !ws::continuation(s[past_continuation(s, p)]),
    decreases s.len() - p,
{
    if p < s.len() && ws::continuation(s[p]) {
        lemma_past_continuation(s, p + 1);
    }
}

/// `bounds` cut `s` into chunks: each bound is greater than the one before,
/// the last one is the end of `s`.
pub open spec fn cuts(s: Seq<u8>, bounds: Seq<int>) -> bool {
    &&& forall|k: int| 0 <= k < bounds.len() ==> 0 < #[trigger] bounds[k] <= s.len()
    &&& forall|j: int, k: int| 0 <= j < k < bounds.len() ==> #[trigger] bounds[j] < #[trigger] bounds[k]
    &&& s.len() > 0 ==> bounds.len() > 0 && bounds.last() == s.len()
    &&& s.len() == 0 ==> bounds.len() == 0
}

/// Where chunk `k` starts.
pub open spec fn start_of(bounds: Seq<int>, k: int) -> int {
    if k <= 0 {
        0
    } else {
        bounds[k - 1]
    }
}

/// The numbers of a vector.
pub open spec fn ints(v: Seq<usize>) -> Seq<int> {
    Seq::new(v.len(), |k: int| v[k] as int)
}

/// The ends of chunks of about `size` bytes. A multi-byte character is not cut
/// in two.
pub fn chunk_bounds(data: &[u8], size: usize, mode: WsMode) -> (bounds: Vec<usize>)
    requires
        size > 0,
    ensures
        ints(bounds@) == chunk_ends(data@, 0, size as int, mode.unicode),
        cuts(data@, ints(bounds@)),
        mode.unicode ==> forall|k: int|
            0 <= k < bounds@.len() && #[trigger] bounds@[k] < data@.len() ==> !ws::continuation(
                data@[bounds@[k] as int],
            ),
{
    let ghost s = data@;
    let mut bounds: Vec<usize> = Vec::new();
    let mut off: usize = 0;
    let len: usize = data.len();
    assert(ints(bounds@) + chunk_ends(s, 0, size as int, mode.unicode) =~= chunk_ends(
        s,
        0,
        size as int,
        mode.unicode,
    ));
    while off < len
        invariant
            s == data@,
            len == s.len(),
            size > 0,
            off <= len,
            chunk_ends(s, 0, size as int, mode.unicode) == ints(bounds@) + chunk_ends(
                s,
                off as int,
                size as int,
                mode.unicode,
            ),
            bounds@.len() == 0 ==> off == 0,
            bounds@.len() > 0 ==> bounds@.last() == off,
            forall|k: int| 0 <= k < bounds@.len() ==> 0 < #[trigger] bounds@[k] <= off,
            forall|j: int, k: int|
                0 <= j < k < bounds@.len() ==> #[trigger] bounds@[j] < #[trigger] bounds@[k],
            mode.unicode ==> forall|k: int|
                0 <= k < bounds@.len() && #[trigger] bounds@[k] < s.len() ==> !ws::continuation(
                    s[bounds@[k] as int],
                ),
        decreases len - off,
    {
        let mut end: usize = if len - off <= size {
            len
        } else {
            off + size
        };
        let ghost want = end as int;
        if mode.unicode {
            while end < len && (data[end] & 0xC0) == 0x80
                invariant
                    s == data@,
                    len == s.len(),
                    want <= end <= len,
                    past_continuation(s, want) == past_continuation(s, end as int),
                decreases len - end,
            {
                proof {
                    ws::lemma_continuation_mask(s[end as int]);
                }
                end = end + 1;
            }
            proof {
                if end < len {
                    ws::lemma_continuation_mask(s[end as int]);
                }
                lemma_past_continuation(s, want);
            }
        }
        assert(end == chunk_end(s, off as int, size as int, mode.unicode));
        let ghost before = ints(bounds@);
        bounds.push(end);
        proof {
            assert(ints(bounds@) =~= before.push(end as int));
            assert(before + chunk_ends(s, off as int, size as int, mode.unicode) =~= ints(bounds@)
                + chunk_ends(s, end as int, size as int, mode.unicode));
        }
        off = end;
    }
    assert(ints(bounds@) + chunk_ends(s, off as int, size as int, mode.unicode) =~= ints(bounds@));
    bounds
}

/// How a text is spread across threads.
pub struct ParallelPlan {
    pub threads: usize,
    pub chunk_size: usize,
    pub bounds: Vec<usize>,
}

/// Decide on the chunks of a text for `threads` threads.
pub fn plan_for(data: &[u8], threads: usize, mode: WsMode) -> (plan: ParallelPlan)
    ensures
        plan.threads == threads,
        plan.chunk_size == target_size(
            data@.len() as int,
            threads as int,
            CHUNK_MIN as int,
            CHUNK_MAX as int,
        ),
        ints(plan.bounds@) == chunk_ends(data@, 0, plan.chunk_size as int, mode.unicode),
        cuts(data@, ints(plan.bounds@)),
        mode.unicode ==> forall|k: int|
            0 <= k < plan.bounds@.len() && #[trigger] plan.bounds@[k] < data@.len()
                ==> !ws::continuation(data@[plan.bounds@[k] as int]),
{
    let size: usize = chunk_size(data.len(), threads, CHUNK_MIN, CHUNK_MAX);
    let bounds: Vec<usize> = chunk_bounds(data, size, mode);
    ParallelPlan { threads, chunk_size: size, bounds }
}

/// Decide on the chunks of a text for the threads that there are.
pub fn plan_parallel(data: &[u8], mode: WsMode) -> (plan: ParallelPlan)
    ensures
        plan.threads >= 1,
        plan.chunk_size == target_size(
            data@.len() as int,
            plan.threads as int,
            CHUNK_MIN as int,
            CHUNK_MAX as int,
        ),
        ints(plan.bounds@) == chunk_ends(data@, 0, plan.chunk_size as int, mode.unicode),
        cuts(data@, ints(plan.bounds@)),
        mode.unicode ==> forall|k: int|
            0 <= k < plan.bounds@.len() && #[trigger] plan.bounds@[k] < data@.len()
                ==> !ws::continuation(data@[plan.bounds@[k] as int]),
{
    plan_for(data, available_threads(), mode)
}

/// What is said of a plan when debugging is asked for.
pub open spec fn plan_text(chunks: nat, size: nat, threads: nat, avx2: bool) -> Seq<char> {
    "wc: debug: "@ + strings::decimal_text(chunks) + " chunk(s) of ~"@ + strings::decimal_text(size)
        + " bytes across "@ + strings::decimal_text(threads) + " thread(s) (avx2="@ + (if avx2 {
        "true"@
    } else {
        "false"@
    }) + ")"@
}

impl ParallelPlan {
    /// What is said of a plan when debugging is asked for.
    pub fn describe(&self) -> (r: String)
        ensures
            r@ == plan_text(
                self.bounds@.len(),
                self.chunk_size as nat,
                self.threads as nat,
                true,
            ),
    {
        let mut s: String = String::new();
        s.append("wc: debug: ");
        s.append(decimal(self.bounds.len() as u64).as_str());
        s.append(" chunk(s) of ~");
        s.append(decimal(self.chunk_size as u64).as_str());
        s.append(" bytes across ");
        s.append(decimal(self.threads as u64).as_str());
        s.append(" thread(s) (avx2=");
        if simd::avx2_available() {
            s.append("true");
        } else {
            s.append("false");
        }
        s.append(")");
        assert(s@ =~= plan_text(
            self.bounds@.len(),
            self.chunk_size as nat,
            self.threads as nat,
            true,
        ));
        s
    }
}

/// One chunk: its start, its end, and whether the reader stands between words
/// where it starts.
pub struct Chunk {
    pub start: usize,
    pub end: usize,
    pub carry: bool,
}

/// The chunk lies in a text of `len` bytes.
pub open spec fn chunk_in(c: Chunk, len: int) -> bool {
    c.start <= c.end <= len
}

/// `chunks` are the stretches of `s` between `bounds`.
pub open spec fn chunks_of(chunks: Seq<Chunk>, s: Seq<u8>, bounds: Seq<int>) -> bool {
    &&& chunks.len() == bounds.len()
    &&& forall|k: int|
        0 <= k < bounds.len() ==> (#[trigger] chunks[k]).start == start_of(bounds, k)
            && chunks[k].end == bounds[k]
}

/// The chunks between `bounds`, each with the carry that the last character of
/// the chunk before it leaves.
fn cut_chunks(data: &[u8], bounds: &Vec<usize>, mode: WsMode) -> (chunks: Vec<Chunk>)
    requires
        cuts(data@, ints(bounds@)),
    ensures
        chunks_of(chunks@, data@, ints(bounds@)),
        forall|k: int|
            0 <= k < chunks@.len() ==> (#[trigger] chunks@[k]).carry == if k == 0 {
                true
            } else {
                text::ends_outside(
                    text::units(
                        data@.subrange(start_of(ints(bounds@), k - 1), bounds@[k - 1] as int),
                        mode,
                    ),
                    true,
                    mode,
                )
            },
{
    let ghost s = data@;
    let mut chunks: Vec<Chunk> = Vec::new();
    let mut start: usize = 0;
    let mut carry: bool = true;
    let mut k: usize = 0;
    while k < bounds.len()
        invariant
            s == data@,
            cuts(s, ints(bounds@)),
            k <= bounds@.len(),
            chunks@.len() == k,
            start == start_of(ints(bounds@), k as int),
            carry == if k == 0 {
                true
            } else {
                text::ends_outside(
                    text::units(
                        s.subrange(start_of(ints(bounds@), k - 1), bounds@[k - 1] as int),
                        mode,
                    ),
                    true,
                    mode,
                )
            },
            forall|j: int|
                0 <= j < k ==> (#[trigger] chunks@[j]).start == start_of(ints(bounds@), j)
                    && chunks@[j].end == bounds@[j],
            forall|j: int|
                0 <= j < k ==> (#[trigger] chunks@[j]).carry == if j == 0 {
                    true
                } else {
                    text::ends_outside(
                        text::units(
                            s.subrange(start_of(ints(bounds@), j - 1), bounds@[j - 1] as int),
                            mode,
                        ),
                        true,
                        mode,
                    )
                },
        decreases bounds.len() - k,
    {
        let end: usize = bounds[k];
        proof {
            assert(0 < ints(bounds@)[k as int] <= s.len());
            if k > 0 {
                assert(ints(bounds@)[k - 1] < ints(bounds@)[k as int]);
            }
        }
        chunks.push(Chunk { start, end, carry });
        carry = trailing_ws(&data[start..end], mode);
        start = end;
        k = k + 1;
    }
    chunks
}

/// A text up to one bound is read as the text up to the bound before it and
/// the chunk between them.
proof fn lemma_next_chunk(s: Seq<u8>, i: int, j: int, mode: WsMode)
    requires
        0 <= i <= j <= s.len(),
        mode.unicode && 0 < i < s.len() ==> !ws::continuation(s[i]),
    ensures
        text::units(s.take(j), mode) == text::units(s.take(i), mode) + text::units(
            s.subrange(i, j),
            mode,
        ),
{
    let t = s.take(j);
    assert(t.take(i) =~= s.take(i));
    assert(t.skip(i) =~= s.subrange(i, j));
    if mode.unicode {
        if i > 0 {
            text::lemma_clean_before_lead(t, i);
        }
        text::lemma_decoded_split(t, i);
    } else {
        text::lemma_bytes_split(t, i);
    }
}

/// There are no more units than bytes, and a text that is not empty has some.
proof fn lemma_units_bounds(s: Seq<u8>, mode: WsMode)
    ensures
        text::units(s, mode).len() <= s.len(),
        s.len() > 0 ==> text::units(s, mode).len() > 0,
{
    text::lemma_units_len(s, 0);
    if s.len() > 0 {
        text::lemma_rest_step(s, mode, 0);
        text::lemma_rest_ends(s, mode);
    }
}

/// The bytes of a chunk.
pub open spec fn part_of(s: Seq<u8>, c: Chunk) -> Seq<u8> {
    s.subrange(c.start as int, c.end as int)
}

/// `r` holds the counts of `part`, which is read from the carry `outside` on:
/// lines and words if `want_ws`, else 0; characters if they are wanted or
/// nothing else is.
pub open spec fn part_counts(
    part: Seq<u8>,
    outside: bool,
    want_chars: bool,
    want_ws: bool,
    mode: WsMode,
    r: Counts,
) -> bool {
    let us = text::units(part, mode);
    &&& r.lines == if want_ws { text::line_count(us) } else { 0 }
    &&& r.words == if want_ws { text::word_count(us, outside, mode) } else { 0 }
    &&& r.chars == if want_chars || !want_ws { text::char_count(us) } else { 0 }
    &&& r.bytes == part.len()
    &&& r.max_line_length == 0
}

/// The number of characters of a chunk.
fn chars_of_chunk(data: &[u8], c: &Chunk, mode: WsMode) -> (r: Counts)
    requires
        chunk_in(*c, data@.len() as int),
    ensures
        part_counts(part_of(data@, *c), c.carry, true, false, mode, r),
{
    let part: &[u8] = &data[c.start..c.end];
    Counts {
        lines: 0,
        words: 0,
        chars: simd::count_chars_only(part, mode),
        bytes: part.len() as u64,
        max_line_length: 0,
    }
}

/// Lines, words, characters and bytes of a chunk.
fn counts_of_chunk(data: &[u8], c: &Chunk, want_chars: bool, mode: WsMode) -> (r: Counts)
    requires
        chunk_in(*c, data@.len() as int),
    ensures
        part_counts(part_of(data@, *c), c.carry, want_chars, true, mode, r),
{
    let (lines, words, bytes, chars, _): (u64, u64, u64, u64, bool) = simd::count_buf_mode(
        &data[c.start..c.end],
        c.carry,
        want_chars,
        mode,
    );
    Counts { lines, words, chars, bytes, max_line_length: 0 }
}

/// Counting spread across threads: the counts of the whole text, whatever the
/// chunks are. Without `want_ws`, lines and words are not counted and the
/// characters always are.
pub fn count_parallel(data: &[u8], want_chars: bool, want_ws: bool, mode: WsMode) -> (r: Counts)
    ensures
        part_counts(data@, true, want_chars, want_ws, mode, r),
{
    let ghost s = data@;
    if data.len() == 0 {
        proof {
            lemma_units_bounds(s, mode);
        }
        return Counts::default();
    }
    let plan: ParallelPlan = plan_parallel(data, mode);
    let ghost bounds = ints(plan.bounds@);
    let chunks: Vec<Chunk> = cut_chunks(data, &plan.bounds, mode);
    let len: usize = data.len();
    proof {
        assert forall|k: int| 0 <= k < chunks@.len() implies chunk_in(
            #[trigger] chunks@[k],
            s.len() as int,
        ) by {
            assert(0 < bounds[k] <= s.len());
            if k > 0 {
                assert(bounds[k - 1] < bounds[k]);
            }
        }
    }
    let parts: Vec<Counts> = if !want_ws {
        let count = |c: &Chunk| -> (r: Counts)
            requires
                chunk_in(*c, data@.len() as int),
            ensures
                part_counts(part_of(data@, *c), c.carry, want_chars, want_ws, mode, r),
        { chars_of_chunk(data, c, mode) };
        par_map(&chunks, count)
    } else {
        let count = |c: &Chunk| -> (r: Counts)
            requires
                chunk_in(*c, data@.len() as int),
            ensures
                part_counts(part_of(data@, *c), c.carry, want_chars, want_ws, mode, r),
        { counts_of_chunk(data, c, want_chars, mode) };
        par_map(&chunks, count)
    };
    assert forall|j: int| 0 <= j < parts@.len() implies part_counts(
        s.subrange(start_of(bounds, j), bounds[j]),
        chunks@[j].carry,
        want_chars,
        want_ws,
        mode,
        #[trigger] parts@[j],
    ) by {
        assert(part_of(s, chunks@[j]) =~= s.subrange(start_of(bounds, j), bounds[j]));
    }
    let mut total: Counts = Counts::default();
    let mut k: usize = 0;
    proof {
        assert(s.take(0) =~= Seq::<u8>::empty());
        lemma_units_bounds(s.take(0), mode);
    }
    while k < parts.len()
        invariant
            s == data@,
            bounds == ints(plan.bounds@),
            cuts(s, bounds),
            mode.unicode ==> forall|k: int|
                0 <= k < bounds.len() && #[trigger] bounds[k] < s.len() ==> !ws::continuation(
                    s[bounds[k]],
                ),
            chunks_of(chunks@, s, bounds),
            parts@.len() == bounds.len(),
            k <= parts@.len(),
            forall|j: int|
                0 <= j < chunks@.len() ==> (#[trigger] chunks@[j]).carry == if j == 0 {
                    true
                } else {
                    text::ends_outside(
                        text::units(s.subrange(start_of(bounds, j - 1), bounds[j - 1]), mode),
                        true,
                        mode,
                    )
                },
            forall|j: int|
                0 <= j < parts@.len() ==> part_counts(
                    s.subrange(start_of(bounds, j), bounds[j]),
                    chunks@[j].carry,
                    want_chars,
                    want_ws,
                    mode,
                    #[trigger] parts@[j],
                ),
            part_counts(
                s.take(start_of(bounds, k as int)),
                true,
                want_chars,
                want_ws,
                mode,
                total,
            ),
            text::ends_outside(
                text::units(s.take(start_of(bounds, k as int)), mode),
                true,
                mode,
            ) == if k == 0 {
                true
            } else {
                text::ends_outside(
                    text::units(s.subrange(start_of(bounds, k - 1), bounds[k - 1]), mode),
                    true,
                    mode,
                )
            },
        decreases parts.len() - k,
    {
        proof {
            let i = start_of(bounds, k as int);
            let j = bounds[k as int];
            assert(0 < bounds[k as int] <= s.len());
            if k > 0 {
                assert(bounds[k - 1] < bounds[k as int]);
            }
            let a = text::units(s.take(i), mode);
            let b = text::units(s.subrange(i, j), mode);
            lemma_first_is_clean(s, bounds, k as int, mode);
            lemma_next_chunk(s, i, j, mode);
            text::lemma_line_count_concat(a, b);
            text::lemma_char_count_concat(a, b);
            text::lemma_word_count_concat(a, b, true, mode);
            text::lemma_ends_outside_concat(a, b, true, mode);
            lemma_units_bounds(s.take(j), mode);
            lemma_units_bounds(s.subrange(i, j), mode);
            text::lemma_count_bounds(a + b, true, mode);
            assert(chunks@[k as int].carry == text::ends_outside(a, true, mode));
            assert(parts@[k as int].bytes == j - i);
            assert(start_of(bounds, k + 1) == j);
        }
        total = total.merge(&parts[k]);
        k = k + 1;
    }
    proof {
        assert(s.take(s.len() as int) =~= s);
    }
    total
}

/// A chunk starts at position 0, or at a byte that continues no sequence.
proof fn lemma_first_is_clean(s: Seq<u8>, bounds: Seq<int>, k: int, mode: WsMode)
    requires
        0 <= k < bounds.len(),
        mode.unicode ==> forall|k: int|
            0 <= k < bounds.len() && #[trigger] bounds[k] < s.len() ==> !ws::continuation(
                s[bounds[k]],
            ),
    ensures
        start_of(bounds, k) > 0 && mode.unicode && start_of(bounds, k) < s.len()
            ==> !ws::continuation(s[start_of(bounds, k)]),
{
}

/// The least number of bytes in a chunk of lines: 1 MiB.
pub const LINES_MIN: usize = 0x10_0000;

/// The greatest number of bytes after which a chunk of lines ends with the
/// line that it is in: 32 MiB.
pub const LINES_MAX: usize = 0x200_0000;

/// The position behind the first newline from `p` on, or the end.
pub open spec fn past_newline(s: Seq<u8>, p: int) -> int
    decreases s.len() - p,
{
    if 0 <= p < s.len() {
        if s[p] == 0x0a {
            p + 1
        } else {
            past_newline(s, p + 1)
        }
    } else {
        s.len() as int
    }
}

/// Where a chunk of lines that starts at `off` ends.
pub open spec fn lines_end(s: Seq<u8>, off: int, size: int) -> int {
    if off + size >= s.len() {
        s.len() as int
    } else {
        past_newline(s, off + size)
    }
}

/// Where the chunks of lines from `off` on end.
pub open spec fn lines_ends(s: Seq<u8>, off: int, size: int) -> Seq<int>
    decreases s.len() - off,
{
    let end = lines_end(s, off, size);
    if 0 <= off < end <= s.len() {
        seq![end] + lines_ends(s, end, size)
    } else {
        Seq::empty()
    }
}

proof fn lemma_past_newline(s: Seq<u8>, p: int)
    requires
        0 <= p < s.len(),
    ensures
        p < past_newline(s, p) <= s.len(),
        past_newline(s, p) < s.len() ==> s[past_newline(s, p) - 1] == 0x0a,
    decreases s.len() - p,
{
    reveal_with_fuel(past_newline, 2);
    if s[p] != 0x0a && p + 1 < s.len() {
        lemma_past_newline(s, p + 1);
    }
}

/// The ends of chunks of about `size` bytes that are whole lines. A text
/// without a newline is one chunk.
pub fn line_bounds(data: &[u8], size: usize) -> (bounds: Vec<usize>)
    requires
        size > 0,
    ensures
        ints(bounds@) == lines_ends(data@, 0, size as int),
        cuts(data@, ints(bounds@)),
        forall|k: int|
            0 <= k < bounds@.len() && #[trigger] bounds@[k] < data@.len() ==> data@[bounds@[k] - 1]
                == 0x0a,
{
    let ghost s = data@;
    let mut bounds: Vec<usize> = Vec::new();
    let mut off: usize = 0;
    let len: usize = data.len();
    assert(ints(bounds@) + lines_ends(s, 0, size as int) =~= lines_ends(s, 0, size as int));
    while off < len
        invariant
            s == data@,
            len == s.len(),
            size > 0,
            off <= len,
            lines_ends(s, 0, size as int) == ints(bounds@) + lines_ends(
                s,
                off as int,
                size as int,
            ),
            bounds@.len() == 0 ==> off == 0,
            bounds@.len() > 0 ==> bounds@.last() == off,
            forall|k: int| 0 <= k < bounds@.len() ==> 0 < #[trigger] bounds@[k] <= off,
            forall|j: int, k: int|
                0 <= j < k < bounds@.len() ==> #[trigger] bounds@[j] < #[trigger] bounds@[k],
            forall|k: int|
                0 <= k < bounds@.len() && #[trigger] bounds@[k] < s.len() ==> s[bounds@[k] - 1]
                    == 0x0a,
        decreases len - off,
    {
        let mut end: usize = len;
        if len - off > size {
            let want: usize = off + size;
            let mut p: usize = want;
            while p < len && data[p] != 0x0a
                invariant
                    s == data@,
                    len == s.len(),
                    want <= p <= len,
                    past_newline(s, want as int) == past_newline(s, p as int),
                decreases len - p,
            {
                p = p + 1;
            }
            if p < len {
                end = p + 1;
            }
            proof {
                lemma_past_newline(s, want as int);
            }
        }
        assert(end == lines_end(s, off as int, size as int));
        let ghost before = ints(bounds@);
        bounds.push(end);
        proof {
            assert(ints(bounds@) =~= before.push(end as int));
            assert(before + lines_ends(s, off as int, size as int) =~= ints(bounds@) + lines_ends(
                s,
                end as int,
                size as int,
            ));
        }
        off = end;
    }
    assert(ints(bounds@) + lines_ends(s, off as int, size as int) =~= ints(bounds@));
    bounds
}

/// `r` holds every count of `part`, read from the start of a line.
pub open spec fn line_counts(
    part: Seq<u8>,
    want_chars: bool,
    mode: WsMode,
    width: spec_fn(u32) -> int,
    r: Counts,
) -> bool {
    let us = text::units(part, mode);
    &&& r.lines == text::line_count(us)
    &&& r.words == text::word_count(us, true, mode)
    &&& r.chars == if want_chars { text::char_count(us) } else { 0 }
    &&& r.bytes == part.len()
    &&& r.max_line_length == text::longest_line(us, mode.unicode, width)
}

/// Every count of a text, the length of the last line with them.
pub fn count_lines<W: Fn(u32) -> i32>(
    data: &[u8],
    want_chars: bool,
    mode: WsMode,
    wcwidth: &W,
) -> (r: Counts)
    requires
        count::columns_fit(0, data@.len() as int),
        ws::is_width_function(wcwidth),
    ensures
        line_counts(data@, want_chars, mode, ws::width_of(wcwidth), r),
{
    let mut cache: WidthCache = WidthCache::new();
    let (mut counts, _, linepos): (Counts, bool, i64) = count_complicated(
        data,
        want_chars,
        (true, 0),
        mode,
        wcwidth,
        &mut cache,
    );
    if linepos > counts.max_line_length {
        counts.max_line_length = linepos;
    }
    counts
}

/// What follows a newline is counted as if it stood alone.
pub proof fn law_after_newline(
    s: Seq<u8>,
    i: int,
    j: int,
    mode: WsMode,
    width: spec_fn(u32) -> int,
)
    requires
        0 <= i <= j <= s.len(),
        i > 0 ==> s[i - 1] == 0x0a,
    ensures
        ({
            let a = text::units(s.take(i), mode);
            let b = text::units(s.subrange(i, j), mode);
            let la = text::longest_line(a, mode.unicode, width);
            let lb = text::longest_line(b, mode.unicode, width);
            &&& text::units(s.take(j), mode) == a + b
            &&& text::ends_outside(a, true, mode)
            &&& text::word_count(a + b, true, mode) == text::word_count(a, true, mode)
                + text::word_count(b, true, mode)
            &&& text::line_count(a + b) == text::line_count(a) + text::line_count(b)
            &&& text::char_count(a + b) == text::char_count(a) + text::char_count(b)
            &&& text::longest_line(a + b, mode.unicode, width) == if lb > la { lb } else { la }
        }),
{
    let t = s.take(j);
    let a = text::units(s.take(i), mode);
    let b = text::units(s.subrange(i, j), mode);
    assert(t.take(i) =~= s.take(i));
    assert(t.skip(i) =~= s.subrange(i, j));
    if mode.unicode {
        if i > 0 {
            lemma_clean_after_ascii(t, i);
        }
        text::lemma_decoded_split(t, i);
    } else {
        text::lemma_bytes_split(t, i);
    }
    if i > 0 {
        let u = s.take(i);
        assert(u[i - 1] == 0x0a);
        ws::lemma_ascii_alone(u, i - 1);
        if mode.unicode {
            text::lemma_ends_in_char(u, i - 1);
        }
        assert(a.last() == Unit::Char(0x0a));
    } else {
        assert(s.take(i) =~= Seq::<u8>::empty());
        assert(a =~= Seq::<Unit>::empty());
    }
    count::lemma_append(a, b, true, 0, mode, width);
    text::lemma_longest_nonnegative(a, 0, mode.unicode, width);
    text::lemma_longest_nonnegative(b, 0, mode.unicode, width);
    text::lemma_column_nonnegative(a, 0, mode.unicode, width);
    text::lemma_column_nonnegative(b, 0, mode.unicode, width);
}

/// Behind an ASCII character a cut is clean.
proof fn lemma_clean_after_ascii(s: Seq<u8>, p: int)
    requires
        0 < p <= s.len(),
        s[p - 1] < 0x80,
    ensures
        text::clean_cut(s, p),
{
    assert forall|j: int| 0 <= j < p && #[trigger] ws::char_at(s, j) implies j
        + ws::sequence_len(s[j]) <= p by {
        if j + ws::sequence_len(s[j]) > p && j < p - 1 {
            assert(ws::continuation(s[p - 1]));
        }
    }
}

/// Every count, spread across threads.
///
/// A newline is a hard reset: it zeroes the running column and leaves the
/// reader between words. So a chunk that starts just behind a newline needs
/// no state from the one before it, and the results combine by summing the
/// counts and taking the maximum of the line lengths.
pub fn count_parallel_linelength<W: Fn(u32) -> i32 + Sync>(
    data: &[u8],
    want_chars: bool,
    mode: WsMode,
    wcwidth: &W,
) -> (r: Counts)
    requires
        count::columns_fit(0, data@.len() as int),
        ws::is_width_function(wcwidth),
    ensures
        line_counts(data@, want_chars, mode, ws::width_of(wcwidth), r),
{
    let ghost s = data@;
    let ghost width = ws::width_of(wcwidth);
    if data.len() == 0 {
        proof {
            lemma_units_bounds(s, mode);
        }
        return Counts::default();
    }
    let threads: usize = available_threads();
    let size: usize = chunk_size(data.len(), threads, LINES_MIN, LINES_MAX);
    let ends: Vec<usize> = line_bounds(data, size);
    let ghost bounds = ints(ends@);
    let mut chunks: Vec<(usize, usize)> = Vec::new();
    let mut start: usize = 0;
    let mut n: usize = 0;
    while n < ends.len()
        invariant
            bounds == ints(ends@),
            n <= ends@.len(),
            chunks@.len() == n,
            start == start_of(bounds, n as int),
            forall|j: int|
                0 <= j < n ==> (#[trigger] chunks@[j]).0 == start_of(bounds, j) && chunks@[j].1
                    == bounds[j],
        decreases ends.len() - n,
    {
        chunks.push((start, ends[n]));
        start = ends[n];
        n = n + 1;
    }
    let count = |c: &(usize, usize)| -> (r: Counts)
        requires
            c.0 <= c.1 <= data@.len(),
            count::columns_fit(0, data@.len() as int),
            ws::is_width_function(wcwidth),
        ensures
            line_counts(
                data@.subrange(c.0 as int, c.1 as int),
                want_chars,
                mode,
                ws::width_of(wcwidth),
                r,
            ),
    { count_lines(&data[c.0..c.1], want_chars, mode, wcwidth) };
    proof {
        assert forall|k: int| 0 <= k < chunks@.len() implies (#[trigger] chunks@[k]).0 <= chunks@[k].1
            <= s.len() by {
            assert(0 < bounds[k] <= s.len());
            if k > 0 {
                assert(bounds[k - 1] < bounds[k]);
            }
        }
    }
    let parts: Vec<Counts> = par_map(&chunks, count);
    assert forall|j: int| 0 <= j < parts@.len() implies line_counts(
        s.subrange(start_of(bounds, j), bounds[j]),
        want_chars,
        mode,
        width,
        #[trigger] parts@[j],
    ) by {
        assert(chunks@[j].0 == start_of(bounds, j));
    }
    let mut total: Counts = Counts::default();
    let mut k: usize = 0;
    proof {
        assert(s.take(0) =~= Seq::<u8>::empty());
        lemma_units_bounds(s.take(0), mode);
    }
    while k < parts.len()
        invariant
            s == data@,
            bounds == ints(ends@),
            cuts(s, bounds),
            forall|k: int|
                0 <= k < bounds.len() && #[trigger] bounds[k] < s.len() ==> s[bounds[k] - 1]
                    == 0x0a,
            parts@.len() == bounds.len(),
            k <= parts@.len(),
            forall|j: int|
                0 <= j < parts@.len() ==> line_counts(
                    s.subrange(start_of(bounds, j), bounds[j]),
                    want_chars,
                    mode,
                    width,
                    #[trigger] parts@[j],
                ),
            line_counts(s.take(start_of(bounds, k as int)), want_chars, mode, width, total),
        decreases parts.len() - k,
    {
        proof {
            let i = start_of(bounds, k as int);
            let j = bounds[k as int];
            assert(0 < bounds[k as int] <= s.len());
            if k > 0 {
                assert(bounds[k - 1] < bounds[k as int]);
            }
            law_after_newline(s, i, j, mode, width);
            lemma_units_bounds(s.take(j), mode);
            text::lemma_count_bounds(text::units(s.take(j), mode), true, mode);
            text::lemma_count_bounds(text::units(s.subrange(i, j), mode), true, mode);
            text::lemma_count_bounds(text::units(s.take(i), mode), true, mode);
            assert(start_of(bounds, k + 1) == j);
        }
        total = total.merge(&parts[k]);
        k = k + 1;
    }
    proof {
        assert(s.take(s.len() as int) =~= s);
    }
    total
}

} // verus!
