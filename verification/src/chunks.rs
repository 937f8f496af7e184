//! Chunk planning: partitioning a byte buffer into line-aligned ranges that
//! together cover every line exactly once, so that each range can be scanned
//! independently.
//!
//! A nominal cut point may fall inside a line; the chunk before the cut is
//! responsible for finishing that line, and the chunk after it starts at the
//! first line boundary at or past the cut.

use vstd::prelude::*;

verus! {

/// The line terminator byte.
pub const NL: u8 = 10;

/// Index one past the line that is in progress at position `p`: one past the
/// first terminator at or after `p`, or the end of the buffer if none remains.
pub open spec fn line_end(b: Seq<u8>, p: int) -> int
    decreases b.len() - p,
        when 0 <= p <= b.len()
{
    if p >= b.len() {
        b.len() as int
    } else if b[p] == NL {
        p + 1
    } else {
        line_end(b, p + 1)
    }
}

/// Basic shape of `line_end`: it stays within the buffer, makes progress, and
/// marks the first terminator at or after `p`.
pub proof fn lemma_line_end(b: Seq<u8>, p: int)
    requires
        0 <= p <= b.len(),
    ensures
        p <= line_end(b, p) <= b.len(),
        p < b.len() ==> p < line_end(b, p),
        line_end(b, p) < b.len() ==> b[line_end(b, p) - 1] == NL,
        forall|i: int| p <= i < line_end(b, p) - 1 ==> b[i] != NL,
        line_end(b, p) == b.len() || b[line_end(b, p) - 1] == NL,
    decreases b.len() - p,
{
    if p < b.len() && b[p] != NL {
        lemma_line_end(b, p + 1);
    }
}

/// Two positions inside the same line see the same line end.
pub proof fn lemma_line_end_same(b: Seq<u8>, p: int, q: int)
    requires
        0 <= p <= q,
        q < line_end(b, p),
        p <= b.len(),
    ensures
        line_end(b, q) == line_end(b, p),
    decreases q - p,
{
    lemma_line_end(b, p);
    if p < q {
        lemma_line_end_same(b, p + 1, q);
    }
}

/// The resolved (effective) start of a chunk whose nominal cut point is `p`:
/// `p` itself when `p` already sits at a line boundary, otherwise the first
/// position after the line in progress at `p`.
pub open spec fn resolved_start(b: Seq<u8>, p: int) -> int {
    if p <= 0 || p >= b.len() || b[p - 1] == NL {
        p
    } else {
        line_end(b, p)
    }
}

/// A position is aligned when a line begins there (or nothing does, because
/// the buffer has ended).
pub open spec fn aligned(b: Seq<u8>, p: int) -> bool {
    p == 0 || p >= b.len() || b[p - 1] == NL
}

pub proof fn lemma_resolved_aligned(b: Seq<u8>, p: int)
    requires
        0 <= p <= b.len(),
    ensures
        p <= resolved_start(b, p) <= b.len(),
        aligned(b, resolved_start(b, p)),
{
    if !(p <= 0 || p >= b.len() || b[p - 1] == NL) {
        lemma_line_end(b, p);
    }
}

/// The bytes of the line beginning at `p`, without its terminator.
pub open spec fn line_at(b: Seq<u8>, p: int) -> Seq<u8> {
    let e = line_end(b, p);
    if e > p && b[e - 1] == NL {
        b.subrange(p, e - 1)
    } else {
        b.subrange(p, e)
    }
}

/// The lines yielded by a scan that starts at `p` and begins no new line at
/// or past `e`: the last line taken may run past `e` to its terminator.
pub open spec fn chunk_lines(b: Seq<u8>, p: int, e: int) -> Seq<Seq<u8>>
    decreases b.len() - p,
        when 0 <= p
{
    if p >= e || p >= b.len() {
        Seq::empty()
    } else {
        proof {
            lemma_line_end(b, p);
        }
        seq![line_at(b, p)] + chunk_lines(b, line_end(b, p), e)
    }
}

/// All lines of the buffer, in order.
pub open spec fn file_lines(b: Seq<u8>) -> Seq<Seq<u8>> {
    chunk_lines(b, 0, b.len() as int)
}

/// A scan yields no more lines than it has bytes left to read.
pub proof fn lemma_chunk_lines_count(b: Seq<u8>, p: int, e: int)
    requires
        0 <= p,
    ensures
        chunk_lines(b, p, e).len() <= b.len() - p || chunk_lines(b, p, e).len() == 0,
    decreases b.len() - p,
{
    if p < e && p < b.len() {
        lemma_line_end(b, p);
        lemma_chunk_lines_count(b, line_end(b, p), e);
    }
}

/// A scan is insensitive to how far past the buffer its bound reaches.
pub proof fn lemma_chunk_lines_clip(b: Seq<u8>, p: int, e1: int, e2: int)
    requires
        0 <= p,
        e1 >= b.len(),
        e2 >= b.len(),
    ensures
        chunk_lines(b, p, e1) == chunk_lines(b, p, e2),
    decreases b.len() - p,
{
    if p < e1 && p < b.len() {
        lemma_line_end(b, p);
        lemma_chunk_lines_clip(b, line_end(b, p), e1, e2);
    }
}

/// Splitting a scan at an intermediate cut point `e1` loses and duplicates
/// nothing: the first part stops at the line boundary past `e1`, and the
/// second part resumes exactly at the resolved start for `e1`.
pub proof fn lemma_chunk_split(b: Seq<u8>, p: int, e1: int, e2: int)
    requires
        0 <= p <= e1 <= e2,
        p <= b.len(),
        aligned(b, p),
    ensures
        chunk_lines(b, p, e2) == chunk_lines(b, p, e1) + chunk_lines(
            b,
            resolved_start(b, e1),
            e2,
        ),
    decreases b.len() - p,
{
    lemma_line_end(b, p);
    if p >= b.len() {
        // Nothing left to scan: the resolved start of e1 is at or past the
        // buffer end as well.
        assert(resolved_start(b, e1) >= b.len());
        assert(chunk_lines(b, p, e2) =~= chunk_lines(b, p, e1) + chunk_lines(
            b,
            resolved_start(b, e1),
            e2,
        ));
    } else if p >= e1 {
        // p == e1 and a line starts here, so e1 needs no adjustment.
        assert(resolved_start(b, e1) == p);
        assert(chunk_lines(b, p, e2) =~= chunk_lines(b, p, e1) + chunk_lines(
            b,
            resolved_start(b, e1),
            e2,
        ));
    } else {
        let le = line_end(b, p);
        lemma_resolved_aligned(b, le);
        assert(aligned(b, le));
        if le <= e1 {
            lemma_chunk_split(b, le, e1, e2);
            assert(chunk_lines(b, p, e2) =~= chunk_lines(b, p, e1) + chunk_lines(
                b,
                resolved_start(b, e1),
                e2,
            ));
        } else {
            // The line at p runs past e1: the first part ends with this line,
            // and e1 resolves to this line's end.
            assert(b[e1 - 1] != NL) by {
                assert(p <= e1 - 1 < le - 1);
            }
            lemma_line_end_same(b, p, e1);
            assert(resolved_start(b, e1) == le);
            assert(chunk_lines(b, le, e1) =~= Seq::<Seq<u8>>::empty());
            assert(chunk_lines(b, p, e1) =~= seq![line_at(b, p)]);
            assert(chunk_lines(b, p, e2) =~= chunk_lines(b, p, e1) + chunk_lines(
                b,
                resolved_start(b, e1),
                e2,
            ));
        }
    }
}

/// How many chunks a buffer of `size` bytes yields at chunk size `cs`:
/// the cut points 0, cs, 2*cs, ... that fall below `size`.
pub open spec fn spec_num_chunks(size: int, cs: int) -> int {
    if cs <= 0 {
        0
    } else {
        size / cs + if size % cs == 0 {
            0int
        } else {
            1int
        }
    }
}

/// The nominal end of chunk `k`, capped at the buffer end.
pub open spec fn chunk_end_at(b: Seq<u8>, cs: int, k: int) -> int {
    if k * cs + cs >= b.len() {
        b.len() as int
    } else {
        k * cs + cs
    }
}

/// The lines attributed to chunk `k`: scanned from its resolved start, up to
/// its nominal end.
pub open spec fn nth_chunk_lines(b: Seq<u8>, cs: int, k: int) -> Seq<Seq<u8>> {
    chunk_lines(b, resolved_start(b, k * cs), chunk_end_at(b, cs, k))
}

/// The lines of chunks 0 .. n, concatenated in chunk order.
pub open spec fn all_chunks_lines(b: Seq<u8>, cs: int, n: int) -> Seq<Seq<u8>>
    decreases n,
{
    if n <= 0 {
        Seq::empty()
    } else {
        all_chunks_lines(b, cs, n - 1) + nth_chunk_lines(b, cs, n - 1)
    }
}

/// Every nominal start below the last chunk's lies strictly inside the
/// buffer, and the cut points of `spec_num_chunks` chunks reach its end.
pub proof fn lemma_cut_points(size: int, cs: int, k: int)
    requires
        cs >= 1,
        size >= 0,
        0 <= k <= spec_num_chunks(size, cs),
    ensures
        k < spec_num_chunks(size, cs) ==> k * cs < size,
        k == spec_num_chunks(size, cs) ==> k * cs >= size,
        k * cs >= 0,
{
    let n = spec_num_chunks(size, cs);
    vstd::arithmetic::div_mod::lemma_fundamental_div_mod(size, cs);
    vstd::arithmetic::div_mod::lemma_mod_bound(size, cs);
    assert(size == cs * (size / cs) + size % cs);
    assert(k * cs >= 0) by (nonlinear_arith)
        requires
            k >= 0,
            cs >= 1,
    ;
    if k < n {
        assert(k <= n - 1);
        if size % cs == 0 {
            assert(n == size / cs);
            assert(k * cs <= (size / cs - 1) * cs) by (nonlinear_arith)
                requires
                    k <= size / cs - 1,
                    cs >= 1,
            ;
            assert((size / cs - 1) * cs == cs * (size / cs) - cs) by (nonlinear_arith);
            assert(k * cs < size);
        } else {
            assert(n == size / cs + 1);
            assert(k * cs <= (size / cs) * cs) by (nonlinear_arith)
                requires
                    k <= size / cs,
                    cs >= 1,
            ;
            assert((size / cs) * cs == cs * (size / cs)) by (nonlinear_arith);
            assert(k * cs < size);
        }
    }
    if k == n {
        if size % cs == 0 {
            assert(n * cs == cs * (size / cs)) by (nonlinear_arith)
                requires
                    n == size / cs,
            ;
            assert(k * cs >= size);
        } else {
            assert(n * cs == cs * (size / cs) + cs) by (nonlinear_arith)
                requires
                    n == size / cs + 1,
            ;
            assert(k * cs >= size);
        }
    }
}

/// The first `n` chunks together yield exactly the lines scanned from the
/// start of the buffer up to cut point `n * cs`.
pub proof fn lemma_chunks_prefix(b: Seq<u8>, cs: int, n: int)
    requires
        cs >= 1,
        0 <= n,
    ensures
        all_chunks_lines(b, cs, n) == chunk_lines(b, 0, n * cs),
    decreases n,
{
    if n == 0 {
        assert(all_chunks_lines(b, cs, 0) =~= chunk_lines(b, 0, 0));
    } else {
        lemma_chunks_prefix(b, cs, n - 1);
        assert((n - 1) * cs >= 0) by (nonlinear_arith)
            requires
                n >= 1,
                cs >= 1,
        ;
        assert((n - 1) * cs + cs == n * cs) by (nonlinear_arith);
        let s = (n - 1) * cs;
        if s >= b.len() {
            // Chunks past the end of the buffer yield nothing.
            assert(resolved_start(b, s) == s);
            assert(nth_chunk_lines(b, cs, n - 1) =~= Seq::<Seq<u8>>::empty());
            lemma_chunk_lines_clip(b, 0, s, n * cs);
            assert(all_chunks_lines(b, cs, n) =~= chunk_lines(b, 0, n * cs));
        } else {
            lemma_chunk_split(b, 0, s, n * cs);
            lemma_resolved_aligned(b, s);
            lemma_chunk_lines_clip_end(b, resolved_start(b, s), s + cs, chunk_end_at(b, cs, n - 1));
            assert(all_chunks_lines(b, cs, n) =~= chunk_lines(b, 0, n * cs));
        }
    }
}

/// A scan bound may be moved anywhere at or past the buffer end, or kept
/// equal below it, without changing the lines.
proof fn lemma_chunk_lines_clip_end(b: Seq<u8>, p: int, e1: int, e2: int)
    requires
        0 <= p,
        e1 == e2 || (e1 >= b.len() && e2 >= b.len()),
    ensures
        chunk_lines(b, p, e1) == chunk_lines(b, p, e2),
{
    if e1 != e2 {
        lemma_chunk_lines_clip(b, p, e1, e2);
    }
}

/// Line coverage: for any chunk size, the chunks' lines concatenated in chunk
/// order are exactly the buffer's lines, each once, in original order.
pub proof fn lemma_chunk_line_coverage(b: Seq<u8>, cs: int)
    requires
        cs >= 1,
    ensures
        all_chunks_lines(b, cs, spec_num_chunks(b.len() as int, cs)) == file_lines(b),
{
    let n = spec_num_chunks(b.len() as int, cs);
    vstd::arithmetic::div_mod::lemma_div_pos_is_pos(b.len() as int, cs);
    vstd::arithmetic::div_mod::lemma_mod_bound(b.len() as int, cs);
    assert(n >= 0);
    lemma_chunks_prefix(b, cs, n);
    lemma_cut_points(b.len() as int, cs, n);
    lemma_chunk_lines_clip_end(b, 0, n * cs, b.len() as int);
}

/// The nominal end of a chunk that starts at `start`, capped at the buffer
/// end.
pub open spec fn nominal_end(b: Seq<u8>, cs: int, start: int) -> int {
    if start + cs >= b.len() {
        b.len() as int
    } else {
        start + cs
    }
}

/// The running offset a planner walking earlier cut points in order carries
/// into the cut point `start`: the resolved start of some earlier cut point.
pub open spec fn carried_offset_ok(b: Seq<u8>, position: int, start: int) -> bool {
    exists|p: int| 0 <= p <= start && position == #[trigger] resolved_start(b, p)
}

/// Scans forward from `from` and returns the index one past the line in
/// progress there.
fn scan_line_end(bytes: &[u8], from: usize) -> (j: usize)
    requires
        from <= bytes@.len(),
    ensures
        j == line_end(bytes@, from as int),
        from <= j <= bytes@.len(),
{
    proof {
        lemma_line_end(bytes@, from as int);
    }
    let n = bytes.len();
    let mut i: usize = from;
    while i < n && bytes[i] != NL
        invariant
            from <= i <= n,
            n == bytes@.len(),
            line_end(bytes@, from as int) == line_end(bytes@, i as int),
        decreases n - i,
    {
        i = i + 1;
    }
    if i < n {
        i + 1
    } else {
        i
    }
}

/// One contiguous, line-aligned range of the buffer, yielding its lines in
/// order. The final line may run past the nominal end; the first partial
/// line, if the range began inside one, has already been skipped.
pub struct Chunk<'a> {
    bytes: &'a [u8],
    position: usize,
    end: usize,
}

impl<'a> Chunk<'a> {
    /// The buffer this chunk reads.
    pub closed spec fn buf(self) -> Seq<u8> {
        self.bytes@
    }

    /// The current read position.
    pub closed spec fn pos(self) -> int {
        self.position as int
    }

    /// The nominal end: no new line is begun at or past it.
    pub closed spec fn bound(self) -> int {
        self.end as int
    }

    pub closed spec fn wf(self) -> bool {
        self.end <= self.bytes@.len()
    }

    /// Bounds that hold of every well-formed chunk.
    pub proof fn lemma_wf(self)
        requires
            self.wf(),
        ensures
            0 <= self.pos(),
            0 <= self.bound() <= self.buf().len(),
    {
    }

    /// The lines this chunk has yet to yield.
    pub open spec fn lines(self) -> Seq<Seq<u8>> {
        chunk_lines(self.buf(), self.pos(), self.bound())
    }

    /// Opens the chunk whose nominal cut point is `start`. `position` is the
    /// offset carried forward from the chunks before it; when it shows that
    /// the cut point lies inside a line still in progress, the line's
    /// remainder is skipped, since the chunk before finishes that line.
    /// Returns the chunk and its resolved start position.
    pub fn new(bytes: &'a [u8], chunk_size: usize, position: usize, start: usize) -> (r: (
        Chunk<'a>,
        usize,
    ))
        requires
            carried_offset_ok(bytes@, position as int, start as int),
        ensures
            r.0.wf(),
            r.0.buf() == bytes@,
            r.1 == resolved_start(bytes@, start as int),
            r.0.pos() == resolved_start(bytes@, start as int),
            r.0.bound() == nominal_end(bytes@, chunk_size as int, start as int),
    {
        let n = bytes.len();
        proof {
            let p = choose|p: int|
                0 <= p <= start && position as int == resolved_start(bytes@, p);
            if p < bytes@.len() {
                lemma_resolved_aligned(bytes@, p);
                if !aligned(bytes@, p) {
                }
                if resolved_start(bytes@, p) != p {
                    lemma_line_end(bytes@, p);
                }
            }
        }
        let skip = if position > start {
            true
        } else if position < start {
            if start > n {
                false
            } else {
                bytes[start - 1] != NL
            }
        } else {
            false
        };
        let resolved: usize = if skip {
            if start >= n {
                start
            } else {
                scan_line_end(bytes, start)
            }
        } else {
            start
        };
        proof {
            let p = choose|p: int|
                0 <= p <= start && position as int == resolved_start(bytes@, p);
            let b = bytes@;
            let s = start as int;
            if position > start {
                // The carried offset passed the cut point: the cut lies inside
                // a line that the chunk before finishes.
                if p == s {
                    assert(resolved_start(b, s) > s);
                    assert(resolved as int == resolved_start(b, s));
                } else {
                    assert(resolved_start(b, p) == line_end(b, p));
                    lemma_line_end(b, p);
                    assert(b[s - 1] != NL);
                    assert(s < b.len());
                    assert(resolved as int == resolved_start(b, s));
                }
            } else if position == start {
                if p == s {
                    assert(resolved as int == resolved_start(b, s));
                } else {
                    assert(resolved_start(b, p) == s);
                    if resolved_start(b, p) == p {
                    } else {
                        lemma_line_end(b, p);
                        assert(s == b.len() || b[s - 1] == NL);
                    }
                    assert(resolved as int == resolved_start(b, s));
                }
            } else {
                assert(s >= 1);
                assert(resolved as int == resolved_start(b, s));
            }
        }
        let end: usize = if start >= n || n - start < chunk_size {
            n
        } else {
            start + chunk_size
        };
        (Chunk { bytes, position: resolved, end }, resolved)
    }

    /// Yields the next whole line, or nothing once the next line would begin
    /// at or past the nominal end (or the buffer is exhausted).
    pub fn next(&mut self) -> (r: Option<Vec<u8>>)
        requires
            old(self).wf(),
        ensures
            final(self).wf(),
            final(self).buf() == old(self).buf(),
            final(self).bound() == old(self).bound(),
            match r {
                None => final(self).pos() == old(self).pos() && old(self).lines()
                    == Seq::<Seq<u8>>::empty(),
                Some(line) => old(self).lines().len() >= 1 && line@ == old(self).lines()[0]
                    && final(self).lines() == old(self).lines().drop_first(),
            },
    {
        if self.position >= self.end || self.position >= self.bytes.len() {
            return None;
        }
        let ghost b = self.bytes@;
        let ghost p0 = self.position as int;
        let le = scan_line_end(self.bytes, self.position);
        proof {
            lemma_line_end(b, p0);
        }
        let content_end: usize = if le > self.position && self.bytes[le - 1] == NL {
            le - 1
        } else {
            le
        };
        let line = vstd::slice::slice_to_vec(
            vstd::slice::slice_subrange(self.bytes, self.position, content_end),
        );
        self.position = le;
        proof {
            assert(line@ == line_at(b, p0));
            assert(old(self).lines() =~= seq![line_at(b, p0)] + final(self).lines());
            assert(old(self).lines().drop_first() =~= final(self).lines());
        }
        Some(line)
    }
}

/// Walks the nominal cut points 0, cs, 2*cs, ... in order, carrying forward
/// each chunk's resolved start, and hands out the chunks one by one.
pub struct Chunker<'a> {
    bytes: &'a [u8],
    position: usize,
    count: usize,
    chunks: usize,
    chunk_size: usize,
}

impl<'a> Chunker<'a> {
    /// The buffer being partitioned.
    pub closed spec fn buf(self) -> Seq<u8> {
        self.bytes@
    }

    /// The chunk size in use.
    pub closed spec fn cs(self) -> int {
        self.chunk_size as int
    }

    /// How many chunks have been handed out.
    pub closed spec fn done(self) -> int {
        self.count as int
    }

    /// How many chunks there are in total.
    pub closed spec fn num_chunks(self) -> int {
        self.chunks as int
    }

    pub closed spec fn wf(self) -> bool {
        &&& self.chunk_size >= 1
        &&& self.chunks as int == spec_num_chunks(self.bytes@.len() as int, self.chunk_size as int)
        &&& self.count <= self.chunks
        &&& if self.count == 0 {
            self.position == 0
        } else {
            self.position as int == resolved_start(
                self.bytes@,
                (self.count - 1) as int * self.chunk_size as int,
            )
        }
    }

    /// Plans chunks of `chunk_size` bytes over the buffer. A chunk size of
    /// zero is treated as one, so that a non-empty buffer always yields at
    /// least one chunk.
    pub fn new(bytes: &'a [u8], chunk_size: usize) -> (r: Chunker<'a>)
        ensures
            r.wf(),
            r.buf() == bytes@,
            r.done() == 0,
            r.cs() >= 1,
            r.cs() == if chunk_size == 0 {
                1int
            } else {
                chunk_size as int
            },
            r.num_chunks() == spec_num_chunks(bytes@.len() as int, r.cs()),
    {
        let cs: usize = if chunk_size == 0 {
            1
        } else {
            chunk_size
        };
        let size = bytes.len();
        proof {
            vstd::arithmetic::div_mod::lemma_fundamental_div_mod(size as int, cs as int);
            vstd::arithmetic::div_mod::lemma_mod_bound(size as int, cs as int);
            vstd::arithmetic::div_mod::lemma_div_pos_is_pos(size as int, cs as int);
            if size as int % cs as int != 0 {
                assert(cs as int * (size as int / cs as int) >= size as int / cs as int)
                    by (nonlinear_arith)
                    requires
                        cs >= 1,
                        size as int / cs as int >= 0,
                ;
            }
        }
        let chunks: usize = size / cs + if size % cs == 0 {
            0
        } else {
            1
        };
        Chunker { bytes, position: 0, count: 0, chunks, chunk_size: cs }
    }

    /// Hands out the next chunk, resolving its start from the offset carried
    /// out of the chunk before it.
    pub fn next(&mut self) -> (r: Option<Chunk<'a>>)
        requires
            old(self).wf(),
        ensures
            final(self).wf(),
            final(self).buf() == old(self).buf(),
            final(self).cs() == old(self).cs(),
            final(self).num_chunks() == old(self).num_chunks(),
            match r {
                None => old(self).done() == old(self).num_chunks() && final(self).done() == old(
                    self,
                ).done(),
                Some(c) => old(self).done() < old(self).num_chunks() && final(self).done() == old(
                    self,
                ).done() + 1 && c.wf() && c.buf() == old(self).buf() && c.lines()
                    == nth_chunk_lines(old(self).buf(), old(self).cs(), old(self).done()),
            },
    {
        if self.count == self.chunks {
            return None;
        }
        let ghost b = self.bytes@;
        let ghost cs = self.chunk_size as int;
        let ghost k = self.count as int;
        let size = self.bytes.len();
        proof {
            assert(size == b.len());
            lemma_cut_points(b.len() as int, cs, k);
            if self.count == 0 {
                assert(resolved_start(b, 0) == 0);
            } else {
                assert((k - 1) * cs <= k * cs) by (nonlinear_arith)
                    requires
                        cs >= 0,
                        k >= 1,
                ;
                assert((k - 1) * cs >= 0) by (nonlinear_arith)
                    requires
                        cs >= 0,
                        k >= 1,
                ;
            }
            assert(carried_offset_ok(b, self.position as int, k * cs));
        }
        let start = self.count * self.chunk_size;
        self.count = self.count + 1;
        let (chunk, position) = Chunk::new(self.bytes, self.chunk_size, self.position, start);
        self.position = position;
        proof {
            assert(chunk.lines() == nth_chunk_lines(b, cs, k));
        }
        Some(chunk)
    }
}

/// Plans line-aligned chunks over the buffer, sized so that about
/// `parallelism` chunks cover it.
pub fn chunks<'a>(bytes: &'a [u8], parallelism: usize) -> (r: Chunker<'a>)
    ensures
        r.wf(),
        r.buf() == bytes@,
        r.done() == 0,
        r.cs() >= 1,
        ({
            let p: int = if parallelism == 0 {
                1
            } else {
                parallelism as int
            };
            let cs = bytes@.len() as int / p;
            r.cs() == if cs == 0 {
                1int
            } else {
                cs
            }
        }),
        r.num_chunks() == spec_num_chunks(bytes@.len() as int, r.cs()),
{
    let p: usize = if parallelism == 0 {
        1
    } else {
        parallelism
    };
    proof {
        vstd::arithmetic::div_mod::lemma_div_pos_is_pos(bytes@.len() as int, p as int);
    }
    Chunker::new(bytes, bytes.len() / p)
}

/// Boundary invariance: the lines extracted do not depend on the chunk size
/// chosen; any two chunkings of the same buffer yield the same lines.
pub proof fn lemma_boundary_invariance(b: Seq<u8>, cs1: int, cs2: int)
    requires
        cs1 >= 1,
        cs2 >= 1,
    ensures
        all_chunks_lines(b, cs1, spec_num_chunks(b.len() as int, cs1)) == all_chunks_lines(
            b,
            cs2,
            spec_num_chunks(b.len() as int, cs2),
        ),
{
    lemma_chunk_line_coverage(b, cs1);
    lemma_chunk_line_coverage(b, cs2);
}

} // verus!
