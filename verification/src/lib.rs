//! Reports the N most frequent composite keys found in the lines of a large
//! byte buffer, scanning line-aligned chunks independently and merging the
//! per-chunk tallies into one ranked result.

pub mod chunks;
pub mod counter;
pub mod key_finder;

use vstd::prelude::*;

verus! {

use crate::chunks::Chunk;
use crate::chunks::all_chunks_lines;
use crate::chunks::chunks;
use crate::chunks::file_lines;
use crate::chunks::lemma_chunk_line_coverage;
use crate::chunks::lemma_chunk_lines_count;
use crate::chunks::lemma_chunks_prefix;
use crate::counter::Counter;
use crate::counter::KeyCount;
use crate::counter::entry_lt;
use crate::counter::get_or0;
use crate::counter::lemma_occ_bounds;
use crate::counter::lemma_occ_split;
use crate::counter::lemma_tally_push;
use crate::counter::lemma_tally_split;
use crate::counter::occ;
use crate::counter::tally;
use crate::key_finder::KeyFinder;
use crate::key_finder::spec_key;

/// The keys the given lines yield, in order; a line whose key extraction
/// fails contributes nothing.
pub open spec fn keys_of(cfg: Option<Seq<usize>>, lines: Seq<Seq<u8>>) -> Seq<Seq<u8>>
    decreases lines.len(),
{
    if lines.len() == 0 {
        Seq::empty()
    } else {
        keys_of(cfg, lines.drop_last()) + match spec_key(cfg, lines.last()) {
            Some(k) => seq![k],
            None => Seq::empty(),
        }
    }
}

/// The stream of keys a whole buffer yields.
pub open spec fn stream_keys(cfg: Option<Seq<usize>>, b: Seq<u8>) -> Seq<Seq<u8>> {
    keys_of(cfg, file_lines(b))
}

pub proof fn lemma_keys_of_len(cfg: Option<Seq<usize>>, lines: Seq<Seq<u8>>)
    ensures
        keys_of(cfg, lines).len() <= lines.len(),
    decreases lines.len(),
{
    if lines.len() > 0 {
        lemma_keys_of_len(cfg, lines.drop_last());
    }
}

/// Keys accumulate across any split of the lines.
pub proof fn lemma_keys_of_split(cfg: Option<Seq<usize>>, l1: Seq<Seq<u8>>, l2: Seq<Seq<u8>>)
    ensures
        keys_of(cfg, l1 + l2) == keys_of(cfg, l1) + keys_of(cfg, l2),
    decreases l2.len(),
{
    if l2.len() == 0 {
        assert(l1 + l2 =~= l1);
        assert(keys_of(cfg, l1) + keys_of(cfg, l2) =~= keys_of(cfg, l1));
    } else {
        assert((l1 + l2).drop_last() =~= l1 + l2.drop_last());
        assert((l1 + l2).last() == l2.last());
        lemma_keys_of_split(cfg, l1, l2.drop_last());
        assert(keys_of(cfg, l1 + l2) =~= keys_of(cfg, l1) + keys_of(cfg, l2));
    }
}

/// One counting pass over a chunk, with pruning disabled: the resulting
/// tally maps each key the chunk's lines yield to its exact number of
/// occurrences.
pub fn tally_chunk(chunk: Chunk<'_>, kf: &KeyFinder) -> (c: Counter)
    requires
        chunk.wf(),
        kf.wf(),
        chunk.buf().len() < u64::MAX,
    ensures
        c.inv(),
        c.spec_num() == 0,
        c.counts() == tally(keys_of(kf.spec_keys(), chunk.lines())),
{
    let ghost cfg = kf.spec_keys();
    let ghost lines0 = chunk.lines();
    let ghost buf = chunk.buf();
    let mut chunk = chunk;
    let mut c = Counter::new(None);
    let ghost mut processed = Seq::<Seq<u8>>::empty();
    proof {
        chunk.lemma_wf();
        assert(processed + chunk.lines() =~= lines0);
        assert(keys_of(cfg, processed) =~= Seq::<Seq<u8>>::empty());
        assert(tally(keys_of(cfg, processed)).dom() =~= Set::<Seq<u8>>::empty());
        assert(c.counts() =~= tally(keys_of(cfg, processed)));
        lemma_chunk_lines_count(buf, chunk.pos(), chunk.bound());
    }
    loop
        invariant
            chunk.wf(),
            chunk.buf() == buf,
            kf.wf(),
            cfg == kf.spec_keys(),
            c.inv(),
            c.spec_num() == 0,
            lines0 == processed + chunk.lines(),
            lines0.len() <= buf.len(),
            buf.len() < u64::MAX,
            c.counts() == tally(keys_of(cfg, processed)),
        ensures
            chunk.lines().len() == 0,
            lines0 == processed + chunk.lines(),
            c.inv(),
            c.spec_num() == 0,
            c.counts() == tally(keys_of(cfg, processed)),
        decreases chunk.lines().len(),
    {
        let line = match chunk.next() {
            None => {
                break ;
            },
            Some(line) => line,
        };
        proof {
            assert(lines0 =~= processed + seq![line@] + chunk.lines());
        }
        match kf.key(&line) {
            Ok(key) => {
                let ghost ks = keys_of(cfg, processed);
                proof {
                    lemma_keys_of_len(cfg, processed);
                    lemma_occ_bounds(ks, key@);
                    assert(processed.len() < lines0.len());
                    assert(c.count_of(key@) == occ(ks, key@));
                }
                c.add(&key, 1);
                proof {
                    lemma_tally_push(ks, key@);
                    let prev = processed;
                    processed = processed.push(line@);
                    assert(processed.drop_last() =~= prev);
                    assert(processed.last() == line@);
                    assert(spec_key(cfg, line@) == Some(key@));
                    assert(keys_of(cfg, processed) =~= ks.push(key@));
                    assert(c.counts() == tally(keys_of(cfg, processed)));
                }
            },
            Err(_) => {
                proof {
                    let prev = processed;
                    processed = processed.push(line@);
                    assert(processed.drop_last() =~= prev);
                    assert(spec_key(cfg, line@) is None);
                    assert(keys_of(cfg, processed) =~= keys_of(cfg, prev));
                }
            },
        }
        proof {
            assert(lines0 =~= processed + chunk.lines());
        }
    }
    proof {
        assert(processed =~= lines0);
    }
    c
}

/// Scans the buffer's lines in line-aligned chunks, tallies each line's key
/// exactly, and returns the `num` most frequent keys, highest count first,
/// ties broken by descending key.
///
/// Every entry returned carries its key's exact occurrence count. When the
/// buffer holds fewer than `2 * num` distinct keys, no pruning can have
/// taken effect and the result is the exact ranking: as many entries as
/// there are distinct keys (up to `num`), and every key left out ranks
/// strictly below every entry returned.
pub fn top_few_from_stream(bytes: &[u8], kf: &KeyFinder, num: usize, parallelism: usize) -> (r:
    Vec<KeyCount>)
    requires
        kf.wf(),
        1 <= num <= usize::MAX / 2,
        bytes@.len() < u64::MAX,
    ensures
        r@.len() <= num,
        forall|i: int|
            0 <= i < r@.len() ==> {
                &&& 1 <= occ(stream_keys(kf.spec_keys(), bytes@), (#[trigger] r@[i]).key@)
                &&& r@[i].count == occ(stream_keys(kf.spec_keys(), bytes@), r@[i].key@)
            },
        forall|i: int, j: int|
            0 <= i < j < r@.len() ==> entry_lt(
                (#[trigger] r@[j]).count,
                r@[j].key@,
                (#[trigger] r@[i]).count,
                r@[i].key@,
            ),
        tally(stream_keys(kf.spec_keys(), bytes@)).dom().len() < 2 * num ==> {
            &&& r@.len() == if tally(stream_keys(kf.spec_keys(), bytes@)).dom().len() < num {
                tally(stream_keys(kf.spec_keys(), bytes@)).dom().len() as int
            } else {
                num as int
            }
            &&& forall|k: Seq<u8>, i: int|
                #![trigger occ(stream_keys(kf.spec_keys(), bytes@), k), r@[i]]
                stream_keys(kf.spec_keys(), bytes@).contains(k) && 0 <= i < r@.len() && (forall|
                    j: int,
                |
                    0 <= j < r@.len() ==> (#[trigger] r@[j]).key@ != k) ==> entry_lt(
                    (occ(stream_keys(kf.spec_keys(), bytes@), k)) as u64,
                    k,
                    r@[i].count,
                    r@[i].key@,
                )
        },
{
    let ghost b = bytes@;
    let ghost cfg = kf.spec_keys();
    let mut chunker = chunks(bytes, parallelism);
    let ghost cs = chunker.cs();
    let ghost n = chunker.num_chunks();
    let mut acc = Counter::new(Some(num));
    proof {
        assert(all_chunks_lines(b, cs, 0) =~= Seq::<Seq<u8>>::empty());
        assert(keys_of(cfg, all_chunks_lines(b, cs, 0)) =~= Seq::<Seq<u8>>::empty());
        assert(tally(keys_of(cfg, all_chunks_lines(b, cs, 0))).dom() =~= Set::<Seq<u8>>::empty());
        assert(acc.counts() =~= tally(keys_of(cfg, all_chunks_lines(b, cs, 0))));
    }
    loop
        invariant
            chunker.wf(),
            chunker.buf() == b,
            chunker.cs() == cs,
            cs >= 1,
            0 <= chunker.done() <= n,
            chunker.num_chunks() == n,
            kf.wf(),
            cfg == kf.spec_keys(),
            b.len() < u64::MAX,
            1 <= num <= usize::MAX / 2,
            acc.inv(),
            acc.spec_num() == num,
            acc.counts() == tally(keys_of(cfg, all_chunks_lines(b, cs, chunker.done()))),
            acc.num_distinct() < 2 * num ==> acc.unpruned(),
        ensures
            chunker.done() == n,
            acc.inv(),
            acc.spec_num() == num,
            acc.counts() == tally(keys_of(cfg, all_chunks_lines(b, cs, n))),
            acc.num_distinct() < 2 * num ==> acc.unpruned(),
        decreases n - chunker.done(),
    {
        let ghost done0 = chunker.done();
        let chunk = match chunker.next() {
            None => {
                break ;
            },
            Some(chunk) => chunk,
        };
        let ghost prefix_lines = all_chunks_lines(b, cs, done0);
        let ghost prefix_keys = keys_of(cfg, prefix_lines);
        let ghost chunk_keys = keys_of(cfg, chunk.lines());
        let c = tally_chunk(chunk, kf);
        proof {
            // The lines seen after this chunk are the previous prefix plus
            // the chunk's own, so the key streams concatenate, and the
            // pointwise sums of the two tallies stay within range.
            assert(all_chunks_lines(b, cs, done0 + 1) =~= prefix_lines + chunk.lines());
            lemma_keys_of_split(cfg, prefix_lines, chunk.lines());
            lemma_chunks_prefix(b, cs, done0 + 1);
            lemma_chunk_lines_count(b, 0, (done0 + 1) * cs);
            assert((prefix_lines + chunk.lines()).len() <= b.len());
            lemma_keys_of_len(cfg, prefix_lines + chunk.lines());
            assert((prefix_keys + chunk_keys).len() <= b.len());
            assert forall|k: Seq<u8>| #[trigger]
                c.counts().contains_key(k) implies get_or0(acc.counts(), k) + c.counts()[k]
                < u64::MAX by {
                lemma_occ_bounds(prefix_keys, k);
                lemma_occ_bounds(chunk_keys, k);
                lemma_occ_split(prefix_keys, chunk_keys, k);
                lemma_occ_bounds(prefix_keys + chunk_keys, k);
            }
            lemma_tally_split(prefix_keys, chunk_keys);
        }
        let ghost acc0 = acc;
        acc = acc.merge(c);
        proof {
            assert(acc.counts() == tally(keys_of(cfg, all_chunks_lines(b, cs, done0 + 1))));
            if acc.num_distinct() < 2 * num {
                // The tally only ever grows, so the accumulator was still
                // unpruned before this merge as well.
                acc0.lemma_distinct_is_dom();
                acc.lemma_distinct_is_dom();
                assert(acc0.counts().dom() <= acc.counts().dom());
                vstd::set_lib::lemma_len_subset(acc0.counts().dom(), acc.counts().dom());
                assert(acc0.num_distinct() < 2 * num);
            }
        }
    }
    proof {
        lemma_chunk_line_coverage(b, cs);
        assert(acc.counts() == tally(stream_keys(cfg, b)));
    }
    let r = acc.top();
    proof {
        let stream = stream_keys(cfg, b);
        acc.lemma_distinct_is_dom();
        assert forall|i: int| 0 <= i < r@.len() implies 1 <= occ(stream, (#[trigger] r@[i]).key@)
            && r@[i].count == occ(stream, r@[i].key@) by {
            let k = r@[i].key@;
            assert(acc.counts().contains_key(k));
            assert(stream.contains(k));
            lemma_occ_bounds(stream, k);
            lemma_keys_of_len(cfg, file_lines(b));
            lemma_chunk_lines_count(b, 0, b.len() as int);
            assert(occ(stream, k) <= b.len() < u64::MAX);
            assert(r@[i].count == acc.counts()[k]);
        }
        if tally(stream).dom().len() < 2 * num {
            assert(acc.num_distinct() < 2 * num);
            assert(acc.unpruned());
            assert(acc.leaders() == acc.counts());
            assert(r@.len() == if tally(stream).dom().len() < num {
                tally(stream).dom().len() as int
            } else {
                num as int
            });
            assert forall|k: Seq<u8>, i: int|
                #![trigger occ(stream, k), r@[i]]
                stream.contains(k) && 0 <= i < r@.len() && (forall|j: int|
                    0 <= j < r@.len() ==> (#[trigger] r@[j]).key@ != k) implies entry_lt(
                (occ(stream, k)) as u64,
                k,
                r@[i].count,
                r@[i].key@,
            ) by {
                lemma_occ_bounds(stream, k);
                lemma_keys_of_len(cfg, file_lines(b));
                lemma_chunk_lines_count(b, 0, b.len() as int);
                assert(0 <= occ(stream, k) <= b.len());
                assert(acc.counts().contains_key(k));
                assert(acc.leaders().contains_key(k));
                assert(acc.leaders()[k] == (occ(stream, k)) as u64);
            }
        }
    }
    r
}

/// True when the two byte vectors hold the same bytes.
pub(crate) fn bytes_eq(a: &Vec<u8>, b: &Vec<u8>) -> (r: bool)
    ensures
        r == (a@ == b@),
{
    if a.len() != b.len() {
        assert(a@ != b@);
        return false;
    }
    let n = a.len();
    let mut i: usize = 0;
    while i < n
        invariant
            n == a@.len() == b@.len(),
            i <= n,
            forall|j: int| 0 <= j < i ==> a@[j] == b@[j],
        decreases n - i,
    {
        if a[i] != b[i] {
            return false;
        }
        i = i + 1;
    }
    assert(a@ =~= b@);
    true
}


/// Copies a byte vector.
pub(crate) fn copy_bytes(b: &Vec<u8>) -> (r: Vec<u8>)
    ensures
        r@ == b@,
{
    let n = b.len();
    let mut out: Vec<u8> = Vec::new();
    let mut i: usize = 0;
    while i < n
        invariant
            0 <= i <= n,
            n == b@.len(),
            out@ == b@.subrange(0, i as int),
        decreases n - i,
    {
        out.push(b[i]);
        proof {
            assert(out@ =~= b@.subrange(0, i as int + 1));
        }
        i = i + 1;
    }
    proof {
        assert(out@ =~= b@);
    }
    out
}

} // verus!
