//! Frequency counting: an exact per-key tally, plus an approximate,
//! threshold-pruned index of the current leaders that bounds the cost of
//! tracking them, however many distinct keys stream past.

use vstd::prelude::*;
use vstd::seq_lib::group_to_multiset_ensures;

verus! {

/// One ranked result entry: a key and its exact count.
#[derive(Debug)]
pub struct KeyCount {
    pub count: u64,
    pub key: Vec<u8>,
}

/// The association map a sequence of entries denotes; a later entry for a
/// key overrides an earlier one (entries are kept unique, so none does).
pub open spec fn map_of(s: Seq<KeyCount>) -> Map<Seq<u8>, u64>
    decreases s.len(),
{
    if s.len() == 0 {
        Map::empty()
    } else {
        map_of(s.drop_last()).insert(s.last().key@, s.last().count)
    }
}

/// No two entries share a key.
pub open spec fn unique_keys(s: Seq<KeyCount>) -> bool {
    forall|i: int, j: int| 0 <= i < j < s.len() ==> s[i].key@ != s[j].key@
}

/// The map holds exactly the keys of the entries.
pub proof fn lemma_map_of_contains(s: Seq<KeyCount>)
    ensures
        forall|k: Seq<u8>|
            map_of(s).contains_key(k) <==> exists|i: int| 0 <= i < s.len() && s[i].key@ == k,
        map_of(s).dom().finite(),
    decreases s.len(),
{
    if s.len() > 0 {
        lemma_map_of_contains(s.drop_last());
        assert forall|k: Seq<u8>| map_of(s).contains_key(k) implies exists|i: int|
            0 <= i < s.len() && s[i].key@ == k by {
            if s.last().key@ == k {
                assert(s[s.len() - 1].key@ == k);
            } else {
                let i = choose|i: int| 0 <= i < s.len() - 1 && s.drop_last()[i].key@ == k;
                assert(s[i].key@ == k);
            }
        }
        assert forall|k: Seq<u8>| (exists|i: int| 0 <= i < s.len() && s[i].key@ == k) implies map_of(
            s,
        ).contains_key(k) by {
            let i = choose|i: int| 0 <= i < s.len() && s[i].key@ == k;
            if i < s.len() - 1 {
                assert(s.drop_last()[i].key@ == k);
            }
        }
    }
}

/// With unique keys, each entry's count is the map's value at its key.
pub proof fn lemma_map_of_index(s: Seq<KeyCount>, i: int)
    requires
        unique_keys(s),
        0 <= i < s.len(),
    ensures
        map_of(s).contains_key(s[i].key@),
        map_of(s)[s[i].key@] == s[i].count,
    decreases s.len(),
{
    if i == s.len() - 1 {
    } else {
        assert(s.drop_last()[i] == s[i]);
        lemma_map_of_index(s.drop_last(), i);
        assert(s[i].key@ != s.last().key@);
    }
}

/// With unique keys, the map has as many keys as there are entries.
pub proof fn lemma_map_of_len(s: Seq<KeyCount>)
    requires
        unique_keys(s),
    ensures
        map_of(s).dom().len() == s.len(),
        map_of(s).dom().finite(),
    decreases s.len(),
{
    lemma_map_of_contains(s);
    if s.len() > 0 {
        lemma_map_of_len(s.drop_last());
        lemma_map_of_contains(s.drop_last());
        assert(!map_of(s.drop_last()).contains_key(s.last().key@)) by {
            if map_of(s.drop_last()).contains_key(s.last().key@) {
                let i = choose|i: int|
                    0 <= i < s.len() - 1 && s.drop_last()[i].key@ == s.last().key@;
                assert(s[i].key@ == s[s.len() - 1].key@);
            }
        }
        assert(map_of(s).dom() =~= map_of(s.drop_last()).dom().insert(s.last().key@));
    }
}

/// Updating one entry in place updates the map at that entry's key.
pub proof fn lemma_map_of_update(s: Seq<KeyCount>, i: int, e: KeyCount)
    requires
        unique_keys(s),
        0 <= i < s.len(),
        e.key@ == s[i].key@,
    ensures
        map_of(s.update(i, e)) == map_of(s).insert(e.key@, e.count),
        unique_keys(s.update(i, e)),
    decreases s.len(),
{
    let t = s.update(i, e);
    if i == s.len() - 1 {
        assert(t.drop_last() =~= s.drop_last());
        assert(t.last() == e);
        assert(map_of(t) =~= map_of(s).insert(e.key@, e.count));
    } else {
        assert(t.drop_last() =~= s.drop_last().update(i, e));
        assert(s.drop_last()[i] == s[i]);
        lemma_map_of_update(s.drop_last(), i, e);
        assert(t.last() == s.last());
        assert(e.key@ != s.last().key@);
        assert(map_of(t) =~= map_of(s).insert(e.key@, e.count));
    }
}

/// Appending an entry with a fresh key inserts it into the map.
pub proof fn lemma_map_of_push(s: Seq<KeyCount>, e: KeyCount)
    requires
        unique_keys(s),
        forall|i: int| 0 <= i < s.len() ==> s[i].key@ != e.key@,
    ensures
        map_of(s.push(e)) == map_of(s).insert(e.key@, e.count),
        unique_keys(s.push(e)),
{
    assert(s.push(e).drop_last() =~= s);
    assert(s.push(e).last() == e);
    assert(forall|i: int| 0 <= i < s.len() ==> s.push(e)[i] == s[i]);
}

/// Strict-total lexicographic order on byte strings: `a` at or before `b`.
pub open spec fn lex_le(a: Seq<u8>, b: Seq<u8>) -> bool
    decreases a.len(),
{
    if a.len() == 0 {
        true
    } else if b.len() == 0 {
        false
    } else if a[0] < b[0] {
        true
    } else if a[0] > b[0] {
        false
    } else {
        lex_le(a.drop_first(), b.drop_first())
    }
}

pub proof fn lemma_lex_le_total(a: Seq<u8>, b: Seq<u8>)
    ensures
        lex_le(a, b) || lex_le(b, a),
        lex_le(a, b) && lex_le(b, a) ==> a == b,
    decreases a.len(),
{
    if a.len() > 0 && b.len() > 0 && a[0] == b[0] {
        lemma_lex_le_total(a.drop_first(), b.drop_first());
        if lex_le(a, b) && lex_le(b, a) {
            assert(a.drop_first() == b.drop_first());
            assert forall|i: int| 0 <= i < a.len() implies a[i] == b[i] by {
                if i > 0 {
                    assert(a.drop_first()[i - 1] == b.drop_first()[i - 1]);
                }
            }
            assert(a =~= b);
        }
    } else if a.len() > 0 && b.len() == 0 {
        assert(lex_le(b, a));
    }
}

pub proof fn lemma_lex_le_trans(a: Seq<u8>, b: Seq<u8>, c: Seq<u8>)
    requires
        lex_le(a, b),
        lex_le(b, c),
    ensures
        lex_le(a, c),
    decreases a.len(),
{
    if a.len() > 0 && b.len() > 0 && c.len() > 0 {
        if a[0] == b[0] && b[0] == c[0] {
            lemma_lex_le_trans(a.drop_first(), b.drop_first(), c.drop_first());
        }
    }
}

/// The result order: by count, ties by key, both ascending; results are
/// emitted in the reverse of this order.
pub open spec fn entry_le(c1: u64, k1: Seq<u8>, c2: u64, k2: Seq<u8>) -> bool {
    c1 < c2 || (c1 == c2 && lex_le(k1, k2))
}

/// Strictly below in the result order.
pub open spec fn entry_lt(c1: u64, k1: Seq<u8>, c2: u64, k2: Seq<u8>) -> bool {
    entry_le(c1, k1, c2, k2) && !(c1 == c2 && k1 == k2)
}

/// Entry-level counterpart of `entry_le`.
pub open spec fn entry_le_e(x: KeyCount, y: KeyCount) -> bool {
    entry_le(x.count, x.key@, y.count, y.key@)
}

pub proof fn lemma_entry_le_trans(x: KeyCount, y: KeyCount, z: KeyCount)
    requires
        entry_le_e(x, y),
        entry_le_e(y, z),
    ensures
        entry_le_e(x, z),
{
    if x.count == y.count && y.count == z.count {
        lemma_lex_le_trans(x.key@, y.key@, z.key@);
    }
}

/// `a` at or before `b` lexicographically.
fn bytes_le(a: &Vec<u8>, b: &Vec<u8>) -> (r: bool)
    ensures
        r == lex_le(a@, b@),
{
    let an = a.len();
    let bn = b.len();
    let mut i: usize = 0;
    proof {
        assert(a@.skip(0) =~= a@);
        assert(b@.skip(0) =~= b@);
    }
    loop
        invariant
            0 <= i <= an,
            i <= bn,
            an == a@.len(),
            bn == b@.len(),
            lex_le(a@, b@) == lex_le(a@.skip(i as int), b@.skip(i as int)),
        ensures
            (i == an || (i < an && i < bn && a@[i as int] != b@[i as int]) || (i == bn && i < an)),
            lex_le(a@, b@) == lex_le(a@.skip(i as int), b@.skip(i as int)),
        decreases an - i,
    {
        if i == an || i == bn {
            break ;
        }
        if a[i] != b[i] {
            break ;
        }
        proof {
            assert(a@.skip(i as int).drop_first() =~= a@.skip(i as int + 1));
            assert(b@.skip(i as int).drop_first() =~= b@.skip(i as int + 1));
            assert(a@.skip(i as int)[0] == a@[i as int]);
            assert(b@.skip(i as int)[0] == b@[i as int]);
        }
        i = i + 1;
    }
    let r = if i == an {
        true
    } else if i == bn {
        false
    } else {
        a[i] < b[i]
    };
    proof {
        let sa = a@.skip(i as int);
        let sb = b@.skip(i as int);
        if i == an {
            assert(sa.len() == 0);
        } else if i == bn {
            assert(sb.len() == 0 && sa.len() > 0);
        } else {
            assert(sa[0] == a@[i as int] && sb[0] == b@[i as int]);
        }
    }
    r
}

/// `x` at or before `y` in the result order.
fn entry_le_exec(x: &KeyCount, y: &KeyCount) -> (r: bool)
    ensures
        r == entry_le_e(*x, *y),
{
    if x.count < y.count {
        true
    } else if x.count > y.count {
        false
    } else {
        bytes_le(&x.key, &y.key)
    }
}

/// The index of the entry holding `key`, if any.
fn find(v: &Vec<KeyCount>, key: &Vec<u8>) -> (r: Option<usize>)
    ensures
        match r {
            Some(i) => i < v@.len() && v@[i as int].key@ == key@,
            None => forall|i: int| 0 <= i < v@.len() ==> v@[i].key@ != key@,
        },
{
    let n = v.len();
    let mut i: usize = 0;
    while i < n
        invariant
            0 <= i <= n,
            n == v@.len(),
            forall|j: int| 0 <= j < i ==> v@[j].key@ != key@,
        decreases n - i,
    {
        if crate::bytes_eq(&v[i].key, key) {
            return Some(i);
        }
        i = i + 1;
    }
    None
}

/// Tallies keys exactly in `counts`, and keeps the approximate, pruned
/// index of the current leaders in `top`: a key enters the index when its
/// count reaches `threshold`, and the index is compacted, raising the
/// threshold, whenever it grows to twice the requested result size `num`.
/// With `num == 0` the threshold is pinned so that nothing is ever indexed
/// or pruned.
pub struct Counter {
    counts: Vec<KeyCount>,
    top: Vec<KeyCount>,
    threshold: u64,
    num: usize,
}

impl Counter {
    /// The exact tally: every distinct key ever seen, with its total.
    pub closed spec fn counts(self) -> Map<Seq<u8>, u64> {
        map_of(self.counts@)
    }

    /// The approximate leaders index.
    pub closed spec fn leaders(self) -> Map<Seq<u8>, u64> {
        map_of(self.top@)
    }

    /// The admission threshold for the leaders index.
    pub closed spec fn spec_threshold(self) -> u64 {
        self.threshold
    }

    /// The requested result size; zero disables pruning.
    pub closed spec fn spec_num(self) -> int {
        self.num as int
    }

    /// How many distinct keys have been tallied.
    pub closed spec fn num_distinct(self) -> int {
        self.counts@.len() as int
    }

    /// How many keys the leaders index holds.
    pub closed spec fn num_leaders(self) -> int {
        self.top@.len() as int
    }

    /// The exact tally of `k`, zero when unseen.
    pub open spec fn count_of(self, k: Seq<u8>) -> int {
        if self.counts().contains_key(k) {
            self.counts()[k] as int
        } else {
            0
        }
    }

    pub closed spec fn inv(self) -> bool {
        &&& unique_keys(self.counts@)
        &&& unique_keys(self.top@)
        &&& forall|i: int|
            0 <= i < self.top@.len() ==> {
                &&& map_of(self.counts@).contains_key((#[trigger] self.top@[i]).key@)
                &&& map_of(self.counts@)[self.top@[i].key@] == self.top@[i].count
                &&& self.top@[i].count >= self.threshold
            }
        &&& self.num == 0 ==> self.threshold == u64::MAX
        &&& self.num <= usize::MAX / 2
    }

    /// No pruning has taken effect: every tallied key still has a live,
    /// current leader entry.
    pub open spec fn unpruned(self) -> bool {
        &&& self.spec_threshold() == 0
        &&& self.leaders() == self.counts()
        &&& self.num_leaders() == self.num_distinct()
    }

    /// The tallied structures hold exactly as many keys as they report.
    pub proof fn lemma_distinct_is_dom(self)
        requires
            self.inv(),
        ensures
            self.counts().dom().finite(),
            self.counts().dom().len() == self.num_distinct(),
            self.leaders().dom().finite(),
            self.leaders().dom().len() == self.num_leaders(),
    {
        lemma_map_of_len(self.counts@);
        lemma_map_of_len(self.top@);
    }

    /// A counter for the `num` most frequent keys; with no size given,
    /// pruning is disabled, for exact per-chunk passes.
    pub fn new(num: Option<usize>) -> (r: Counter)
        requires
            match num {
                Some(n) => 1 <= n <= usize::MAX / 2,
                None => true,
            },
        ensures
            r.inv(),
            r.counts() == Map::<Seq<u8>, u64>::empty(),
            r.leaders() == Map::<Seq<u8>, u64>::empty(),
            r.num_distinct() == 0,
            r.spec_num() == match num {
                Some(n) => n as int,
                None => 0int,
            },
            match num {
                Some(n) => r.unpruned(),
                None => r.spec_threshold() == u64::MAX,
            },
    {
        let r = match num {
            Some(n) => Counter { counts: Vec::new(), top: Vec::new(), threshold: 0, num: n },
            None => Counter { counts: Vec::new(), top: Vec::new(), threshold: u64::MAX, num: 0 },
        };
        proof {
            assert(r.counts@.len() == 0);
            assert(map_of(r.counts@) =~= Map::<Seq<u8>, u64>::empty());
            assert(map_of(r.top@) =~= Map::<Seq<u8>, u64>::empty());
        }
        r
    }

    /// Adds `added` to the exact tally of `key`, creating the entry if the
    /// key is new, and refreshes the leaders index when the new total has
    /// reached the threshold, compacting the index once it grows to twice
    /// the requested result size.
    pub fn add(&mut self, key: &Vec<u8>, added: u64)
        requires
            old(self).inv(),
            old(self).count_of(key@) + added < u64::MAX,
        ensures
            final(self).inv(),
            final(self).counts() == old(self).counts().insert(
                key@,
                (old(self).count_of(key@) + added) as u64,
            ),
            final(self).spec_num() == old(self).spec_num(),
            final(self).spec_threshold() >= old(self).spec_threshold(),
            old(self).num_distinct() <= final(self).num_distinct() <= old(self).num_distinct() + 1,
            (old(self).unpruned() && old(self).spec_num() >= 1 && final(self).num_distinct() < 2
                * old(self).spec_num()) ==> final(self).unpruned(),
    {
        let ghost counts0 = self.counts@;
        let count: u64 = match find(&self.counts, key) {
            Some(i) => {
                proof {
                    lemma_map_of_index(counts0, i as int);
                }
                let c = self.counts[i].count + added;
                self.counts[i].count = c;
                proof {
                    let e = self.counts@[i as int];
                    assert(e.key@ == key@ && e.count == c);
                    assert(self.counts@ =~= counts0.update(i as int, e));
                    lemma_map_of_update(counts0, i as int, e);
                }
                c
            },
            None => {
                let e = KeyCount { count: added, key: crate::copy_bytes(key) };
                self.counts.push(e);
                proof {
                    lemma_map_of_contains(counts0);
                    lemma_map_of_push(counts0, self.counts@.last());
                    assert(self.counts@ =~= counts0.push(self.counts@.last()));
                }
                added
            },
        };
        proof {
            assert(self.counts() == old(self).counts().insert(
                key@,
                (old(self).count_of(key@) + added) as u64,
            ));
            assert(count == old(self).count_of(key@) + added);
            // Entries for other keys kept their counts.
            assert forall|i: int|
                0 <= i < self.top@.len() && (#[trigger] self.top@[i]).key@ != key@ implies map_of(
                self.counts@,
            ).contains_key(self.top@[i].key@) && map_of(self.counts@)[self.top@[i].key@]
                == self.top@[i].count by {}
        }
        if count < self.threshold {
            proof {
                // A key below the threshold has no leader entry to go stale:
                // its entry, if any, would already record at least the
                // threshold.
                assert forall|i: int| 0 <= i < self.top@.len() implies (#[trigger] self.top@[i]).key@
                    != key@ by {
                    if self.top@[i].key@ == key@ {
                        assert(old(self).top@[i].count >= old(self).threshold);
                        assert(old(self).count_of(key@) >= old(self).threshold);
                    }
                }
            }
            return ;
        }
        let ghost top0 = self.top@;
        match find(&self.top, key) {
            Some(t) => {
                self.top[t].count = count;
                proof {
                    let e = self.top@[t as int];
                    assert(self.top@ =~= top0.update(t as int, e));
                    lemma_map_of_update(top0, t as int, e);
                    if old(self).unpruned() {
                        lemma_map_of_len(self.counts@);
                        lemma_map_of_len(self.top@);
                        assert(self.leaders() =~= self.counts());
                    }
                }
                return ;
            },
            None => {},
        }
        let e = KeyCount { count, key: crate::copy_bytes(key) };
        self.top.push(e);
        proof {
            lemma_map_of_push(top0, self.top@.last());
            assert(self.top@ =~= top0.push(self.top@.last()));
            if old(self).unpruned() {
                // No leader entry existed for the key, so under the unpruned
                // invariant the key was not tallied before either: both
                // structures grow together.
                lemma_map_of_contains(top0);
                lemma_map_of_contains(counts0);
                assert(!map_of(counts0).contains_key(key@));
                assert(self.counts@ == counts0.push(self.counts@.last()));
                assert(self.leaders() =~= self.counts());
                assert(self.num_leaders() == self.num_distinct());
            }
        }
        if self.top.len() < self.num * 2 {
            return ;
        }
        // Compaction: the threshold becomes the num-th largest recorded
        // leader value, and only entries strictly above it survive.
        proof {
            assert(self.num >= 1) by {
                if self.num == 0 {
                    assert(old(self).threshold == u64::MAX);
                    assert(count < u64::MAX);
                }
            }
            if old(self).unpruned() {
                assert(self.num_distinct() >= 2 * old(self).spec_num());
            }
        }
        let mut values: Vec<u64> = Vec::new();
        let tn = self.top.len();
        let mut i: usize = 0;
        while i < tn
            invariant
                0 <= i <= tn,
                tn == self.top@.len(),
                values@.len() == i,
                forall|j: int| 0 <= j < i ==> values@[j] == self.top@[j].count,
            decreases tn - i,
        {
            values.push(self.top[i].count);
            i = i + 1;
        }
        let sorted = sort_u64_asc(values);
        let threshold = sorted[tn - self.num];
        proof {
            broadcast use group_to_multiset_ensures;

            // The chosen threshold is one of the recorded values, so it is
            // at least the old threshold.
            let x = sorted@[tn - self.num as int];
            assert(sorted@.contains(x));
            assert(values@.to_multiset().count(x) > 0);
            assert(values@.contains(x));
            let j = choose|j: int| 0 <= j < values@.len() && values@[j] == x;
            assert(values@[j] == self.top@[j].count);
            assert(self.top@[j].count >= self.threshold);
        }
        self.threshold = threshold;
        let ghost counts1 = self.counts@;
        let mut k: usize = 0;
        while k < self.top.len()
            invariant
                self.counts@ == counts1,
                map_of(counts1) == old(self).counts().insert(
                    key@,
                    (old(self).count_of(key@) + added) as u64,
                ),
                0 <= old(self).count_of(key@) + added < u64::MAX,
                unique_keys(self.counts@),
                unique_keys(self.top@),
                0 <= k <= self.top@.len(),
                self.threshold == threshold,
                threshold >= old(self).spec_threshold(),
                self.num == old(self).num,
                old(self).num >= 1,
                counts1.len() <= counts0.len() + 1,
                counts1.len() >= counts0.len(),
                old(self).unpruned() ==> counts1.len() >= 2 * old(self).spec_num(),
                forall|i: int|
                    0 <= i < self.top@.len() ==> {
                        &&& map_of(self.counts@).contains_key((#[trigger] self.top@[i]).key@)
                        &&& map_of(self.counts@)[self.top@[i].key@] == self.top@[i].count
                    },
                forall|i: int| 0 <= i < k ==> (#[trigger] self.top@[i]).count > threshold,
            decreases self.top@.len() - k,
        {
            if self.top[k].count <= threshold {
                let ghost before = self.top@;
                self.top.remove(k);
                proof {
                    assert forall|i: int, j: int|
                        0 <= i < j < self.top@.len() implies self.top@[i].key@
                        != self.top@[j].key@ by {
                        let bi = if i < k {
                            i
                        } else {
                            i + 1
                        };
                        let bj = if j < k {
                            j
                        } else {
                            j + 1
                        };
                        assert(self.top@[i] == before[bi] && self.top@[j] == before[bj]);
                    }
                    assert forall|i: int| 0 <= i < self.top@.len() implies map_of(
                        self.counts@,
                    ).contains_key((#[trigger] self.top@[i]).key@) && map_of(
                        self.counts@,
                    )[self.top@[i].key@] == self.top@[i].count by {
                        let bi = if i < k {
                            i
                        } else {
                            i + 1
                        };
                        assert(self.top@[i] == before[bi]);
                    }
                }
            } else {
                k = k + 1;
            }
        }
    }

    /// The exact tally of `key`, zero when the key was never seen.
    pub fn count(&self, key: &Vec<u8>) -> (c: u64)
        requires
            self.inv(),
        ensures
            c as int == self.count_of(key@),
    {
        match find(&self.counts, key) {
            Some(i) => {
                proof {
                    lemma_map_of_index(self.counts@, i as int);
                }
                self.counts[i].count
            },
            None => {
                proof {
                    lemma_map_of_contains(self.counts@);
                }
                0
            },
        }
    }

    /// Folds another counter's exact tally into this one, key by key: the
    /// result's tally is the pointwise sum, however the stream was
    /// partitioned.
    pub fn merge(self, r: Counter) -> (m: Counter)
        requires
            self.inv(),
            r.inv(),
            forall|k: Seq<u8>| #[trigger]
                r.counts().contains_key(k) ==> get_or0(self.counts(), k) + r.counts()[k]
                    < u64::MAX,
        ensures
            m.inv(),
            m.spec_num() == self.spec_num(),
            m.counts() == merged(self.counts(), r.counts()),
            m.spec_threshold() >= self.spec_threshold(),
            (self.unpruned() && self.spec_num() >= 1 && m.num_distinct() < 2 * self.spec_num())
                ==> m.unpruned(),
    {
        let mut acc = self;
        let n = r.counts.len();
        proof {
            assert(r.counts@.subrange(0, 0) =~= Seq::<KeyCount>::empty());
            assert(map_of(r.counts@.subrange(0, 0)) =~= Map::<Seq<u8>, u64>::empty());
            assert(acc.counts() =~= merged(self.counts(), map_of(r.counts@.subrange(0, 0))));
        }
        let mut i: usize = 0;
        while i < n
            invariant
                0 <= i <= n,
                n == r.counts@.len(),
                r.inv(),
                acc.inv(),
                acc.spec_num() == self.spec_num(),
                acc.spec_threshold() >= self.spec_threshold(),
                acc.counts() == merged(self.counts(), map_of(r.counts@.subrange(0, i as int))),
                forall|k: Seq<u8>| #[trigger]
                    r.counts().contains_key(k) ==> get_or0(self.counts(), k) + r.counts()[k]
                        < u64::MAX,
                (self.unpruned() && self.spec_num() >= 1 && acc.num_distinct() < 2
                    * self.spec_num()) ==> acc.unpruned(),
            decreases n - i,
        {
            let ghost pre = r.counts@.subrange(0, i as int);
            let ghost post = r.counts@.subrange(0, i as int + 1);
            let ghost e = r.counts@[i as int];
            let ghost acc0 = acc;
            proof {
                // The key is fresh within the prefix already folded in, so
                // its running total is still this counter's own.
                lemma_map_of_index(r.counts@, i as int);
                lemma_map_of_contains(pre);
                assert(forall|j: int| 0 <= j < i ==> pre[j] == r.counts@[j]);
                assert(!map_of(pre).contains_key(e.key@)) by {
                    if map_of(pre).contains_key(e.key@) {
                        let j = choose|j: int| 0 <= j < pre.len() && pre[j].key@ == e.key@;
                        assert(r.counts@[j].key@ == r.counts@[i as int].key@);
                    }
                }
                assert(get_or0(map_of(pre), e.key@) == 0);
                assert(acc.count_of(e.key@) == get_or0(self.counts(), e.key@));
                assert(r.counts().contains_key(e.key@) && r.counts()[e.key@] == e.count);
            }
            let entry = &r.counts[i];
            acc.add(&entry.key, entry.count);
            proof {
                lemma_map_of_push(pre, e);
                assert(post =~= pre.push(e));
                let m1 = merged(self.counts(), map_of(pre));
                let m2 = merged(self.counts(), map_of(post));
                assert(map_of(post) == map_of(pre).insert(e.key@, e.count));
                assert(acc.counts() == m1.insert(
                    e.key@,
                    (acc0.count_of(e.key@) + e.count) as u64,
                ));
                assert forall|k: Seq<u8>| m2.dom().contains(k) implies m2[k] == m1.insert(
                    e.key@,
                    (acc0.count_of(e.key@) + e.count) as u64,
                )[k] by {}
                assert(m2.dom() =~= m1.insert(
                    e.key@,
                    (acc0.count_of(e.key@) + e.count) as u64,
                ).dom());
                assert(m2 =~= m1.insert(e.key@, (acc0.count_of(e.key@) + e.count) as u64));
                assert(acc.counts() == m2);
            }
            i = i + 1;
        }
        proof {
            assert(r.counts@.subrange(0, n as int) =~= r.counts@);
        }
        acc
    }

    /// Extracts the ranked result from the leaders index: at most `num`
    /// entries (all of them when `num` is zero), highest exact count first,
    /// ties broken by descending key, and no surviving leader outranks any
    /// entry returned.
    pub fn top(&self) -> (r: Vec<KeyCount>)
        requires
            self.inv(),
        ensures
            r@.len() == if self.spec_num() == 0 || self.num_leaders() < self.spec_num() {
                self.num_leaders()
            } else {
                self.spec_num()
            },
            forall|i: int|
                0 <= i < r@.len() ==> {
                    &&& self.leaders().contains_key((#[trigger] r@[i]).key@)
                    &&& self.counts().contains_key(r@[i].key@)
                    &&& r@[i].count == self.counts()[r@[i].key@]
                },
            forall|i: int, j: int|
                0 <= i < j < r@.len() ==> entry_lt(
                    (#[trigger] r@[j]).count,
                    r@[j].key@,
                    (#[trigger] r@[i]).count,
                    r@[i].key@,
                ),
            forall|k: Seq<u8>, i: int|
                #![trigger self.leaders()[k], r@[i]]
                self.leaders().contains_key(k) && 0 <= i < r@.len() && (forall|j: int|
                    0 <= j < r@.len() ==> (#[trigger] r@[j]).key@ != k) ==> entry_lt(
                    self.leaders()[k],
                    k,
                    r@[i].count,
                    r@[i].key@,
                ),
    {
        broadcast use group_to_multiset_ensures;

        let tn = self.top.len();
        let mut entries: Vec<KeyCount> = Vec::new();
        let mut i: usize = 0;
        while i < tn
            invariant
                0 <= i <= tn,
                tn == self.top@.len(),
                entries@.len() == i,
                forall|l: int|
                    0 <= l < i ==> (#[trigger] entries@[l]).count == self.top@[l].count
                        && entries@[l].key@ == self.top@[l].key@,
            decreases tn - i,
        {
            let e = KeyCount { count: self.top[i].count, key: crate::copy_bytes(&self.top[i].key) };
            entries.push(e);
            i = i + 1;
        }
        proof {
            assert(unique_keys(self.top@));
            assert forall|a: int, b: int| 0 <= a < b < entries@.len() implies entries@[a].key@
                != entries@[b].key@ by {
                assert(self.top@[a].key@ != self.top@[b].key@);
            }
        }
        let ghost entries0 = entries@;
        let mut r = sort_entries_desc(entries);
        let ghost full = r@;
        if self.num > 0 {
            r.truncate(self.num);
            proof {
                if self.num < full.len() {
                    assert(r@ =~= full.subrange(0, self.num as int));
                } else {
                    assert(r@ =~= full);
                }
            }
        }
        proof {
            // Each returned entry is one of the sorted entries, hence one of
            // the copies, hence a live leader entry with its exact count.
            assert forall|i: int| 0 <= i < r@.len() implies r@[i] == full[i] by {}
            assert forall|i: int|
                0 <= i < full.len() implies exists|l: int|
                0 <= l < self.top@.len() && (#[trigger] full[i]).count == self.top@[l].count
                    && full[i].key@ == self.top@[l].key@ by {
                assert(full.contains(full[i]));
                assert(full.to_multiset().count(full[i]) > 0);
                assert(entries0.contains(full[i]));
                let l = choose|l: int| 0 <= l < entries0.len() && entries0[l] == full[i];
                assert(entries0[l].count == self.top@[l].count && entries0[l].key@
                    == self.top@[l].key@);
            }
            assert forall|i: int|
                0 <= i < r@.len() implies self.leaders().contains_key((#[trigger] r@[i]).key@)
                && self.counts().contains_key(r@[i].key@) && r@[i].count == self.counts()[r@[i].key@]
                && r@[i].count == self.leaders()[r@[i].key@] by {
                let l = choose|l: int|
                    0 <= l < self.top@.len() && (#[trigger] full[i]).count == self.top@[l].count
                        && full[i].key@ == self.top@[l].key@;
                lemma_map_of_index(self.top@, l);
            }
            // Strict ordering: the sort is weakly descending and keys are
            // distinct.
            assert forall|i: int, j: int| 0 <= i < j < r@.len() implies entry_lt(
                (#[trigger] r@[j]).count,
                r@[j].key@,
                (#[trigger] r@[i]).count,
                r@[i].key@,
            ) by {
                assert(entry_le_e(full[j], full[i]));
                assert(full[i].key@ != full[j].key@);
            }
            // Completeness: a leader key absent from the result was sorted
            // past the cut, so everything returned outranks it.
            assert forall|k: Seq<u8>, i: int|
                #![trigger self.leaders()[k], r@[i]]
                self.leaders().contains_key(k) && 0 <= i < r@.len() && (forall|j: int|
                    0 <= j < r@.len() ==> (#[trigger] r@[j]).key@ != k) implies entry_lt(
                self.leaders()[k],
                k,
                r@[i].count,
                r@[i].key@,
            ) by {
                lemma_map_of_contains(self.top@);
                let l = choose|l: int| 0 <= l < self.top@.len() && self.top@[l].key@ == k;
                lemma_map_of_index(self.top@, l);
                assert(entries0[l].key@ == k && entries0[l].count == self.leaders()[k]);
                assert(entries0.contains(entries0[l]));
                assert(full.to_multiset().count(entries0[l]) > 0);
                assert(full.contains(entries0[l]));
                let f = choose|f: int| 0 <= f < full.len() && full[f] == entries0[l];
                assert(full[f].key@ == k);
                assert(f >= r@.len());
                assert(entry_le_e(full[f], full[i]));
                assert(full[i].key@ != k);
            }
        }
        r
    }
}

/// The value of `k` in a tally, zero when absent.
pub open spec fn get_or0(m: Map<Seq<u8>, u64>, k: Seq<u8>) -> int {
    if m.contains_key(k) {
        m[k] as int
    } else {
        0
    }
}

/// The pointwise sum of two tallies.
pub open spec fn merged(m1: Map<Seq<u8>, u64>, m2: Map<Seq<u8>, u64>) -> Map<Seq<u8>, u64> {
    Map::new(
        |k: Seq<u8>| m1.contains_key(k) || m2.contains_key(k),
        |k: Seq<u8>| (get_or0(m1, k) + get_or0(m2, k)) as u64,
    )
}

/// How many times `k` occurs in a stream of keys.
pub open spec fn occ(keys: Seq<Seq<u8>>, k: Seq<u8>) -> int
    decreases keys.len(),
{
    if keys.len() == 0 {
        0
    } else {
        occ(keys.drop_last(), k) + if keys.last() == k {
            1int
        } else {
            0int
        }
    }
}

pub proof fn lemma_occ_bounds(keys: Seq<Seq<u8>>, k: Seq<u8>)
    ensures
        0 <= occ(keys, k) <= keys.len(),
        occ(keys, k) > 0 <==> keys.contains(k),
    decreases keys.len(),
{
    if keys.len() > 0 {
        lemma_occ_bounds(keys.drop_last(), k);
        if occ(keys, k) > 0 {
            if keys.last() == k {
                assert(keys[keys.len() - 1] == k);
            } else {
                let i = choose|i: int| 0 <= i < keys.len() - 1 && keys.drop_last()[i] == k;
                assert(keys[i] == k);
            }
        }
        if keys.contains(k) {
            let i = choose|i: int| 0 <= i < keys.len() && keys[i] == k;
            if i < keys.len() - 1 {
                assert(keys.drop_last()[i] == k);
            }
        }
    }
}

/// Occurrence counts add across any split of a stream into two parts:
/// the tally of a stream does not depend on how the stream was divided.
pub proof fn lemma_occ_split(s1: Seq<Seq<u8>>, s2: Seq<Seq<u8>>, k: Seq<u8>)
    ensures
        occ(s1 + s2, k) == occ(s1, k) + occ(s2, k),
    decreases s2.len(),
{
    if s2.len() == 0 {
        assert(s1 + s2 =~= s1);
    } else {
        assert((s1 + s2).drop_last() =~= s1 + s2.drop_last());
        assert((s1 + s2).last() == s2.last());
        lemma_occ_split(s1, s2.drop_last(), k);
    }
}

/// The exact tally of a stream of keys: every key that occurs, mapped to
/// its number of occurrences.
pub open spec fn tally(keys: Seq<Seq<u8>>) -> Map<Seq<u8>, u64> {
    Map::new(|k: Seq<u8>| keys.contains(k), |k: Seq<u8>| occ(keys, k) as u64)
}

/// The tally's key set is finite, and no larger than the stream.
pub proof fn lemma_tally_finite(keys: Seq<Seq<u8>>)
    ensures
        tally(keys).dom().finite(),
        tally(keys).dom().len() <= keys.len(),
    decreases keys.len(),
{
    if keys.len() == 0 {
        assert(tally(keys).dom() =~= Set::<Seq<u8>>::empty());
    } else {
        lemma_tally_finite(keys.drop_last());
        assert forall|k: Seq<u8>| keys.contains(k) implies keys.drop_last().contains(k)
            || keys.last() == k by {
            let i = choose|i: int| 0 <= i < keys.len() && keys[i] == k;
            if i < keys.len() - 1 {
                assert(keys.drop_last()[i] == k);
            }
        }
        assert forall|k: Seq<u8>| keys.drop_last().contains(k) implies keys.contains(k) by {
            let i = choose|i: int| 0 <= i < keys.len() - 1 && keys.drop_last()[i] == k;
            assert(keys[i] == k);
        }
        assert(keys.contains(keys.last())) by {
            assert(keys[keys.len() - 1] == keys.last());
        }
        assert(tally(keys).dom() =~= tally(keys.drop_last()).dom().insert(keys.last()));
    }
}

/// Appending one key to a stream raises its count by one and leaves every
/// other count unchanged.
pub proof fn lemma_tally_push(keys: Seq<Seq<u8>>, k: Seq<u8>)
    requires
        occ(keys, k) + 1 <= u64::MAX,
    ensures
        tally(keys.push(k)) == tally(keys).insert(k, (occ(keys, k) + 1) as u64),
{
    let p = keys.push(k);
    assert(p.drop_last() =~= keys);
    assert(p.last() == k);
    assert forall|j: Seq<u8>| #![auto] true implies occ(p, j) == occ(keys, j) + if j == k {
        1int
    } else {
        0int
    } by {}
    assert forall|j: Seq<u8>| p.contains(j) implies keys.contains(j) || j == k by {
        let i = choose|i: int| 0 <= i < p.len() && p[i] == j;
        if i < keys.len() {
            assert(keys[i] == j);
        }
    }
    assert forall|j: Seq<u8>| keys.contains(j) implies p.contains(j) by {
        let i = choose|i: int| 0 <= i < keys.len() && keys[i] == j;
        assert(p[i] == j);
    }
    assert(p.contains(k)) by {
        assert(p[p.len() - 1] == k);
    }
    assert(tally(p) =~= tally(keys).insert(k, (occ(keys, k) + 1) as u64));
}

/// Tallying the parts of a stream separately and summing pointwise equals
/// tallying the whole stream at once.
pub proof fn lemma_tally_split(s1: Seq<Seq<u8>>, s2: Seq<Seq<u8>>)
    requires
        s1.len() + s2.len() <= u64::MAX,
    ensures
        tally(s1 + s2) == merged(tally(s1), tally(s2)),
{
    assert forall|k: Seq<u8>| #[trigger] (s1 + s2).contains(k) implies s1.contains(k)
        || s2.contains(k) by {
        let i = choose|i: int| 0 <= i < (s1 + s2).len() && (s1 + s2)[i] == k;
        if i < s1.len() {
            assert(s1[i] == k);
        } else {
            assert(s2[i - s1.len()] == k);
        }
    }
    assert forall|k: Seq<u8>| s1.contains(k) || s2.contains(k) implies #[trigger] (s1
        + s2).contains(k) by {
        if s1.contains(k) {
            let i = choose|i: int| 0 <= i < s1.len() && s1[i] == k;
            assert((s1 + s2)[i] == k);
        } else {
            let i = choose|i: int| 0 <= i < s2.len() && s2[i] == k;
            assert((s1 + s2)[s1.len() + i] == k);
        }
    }
    assert forall|k: Seq<u8>| #![auto] true implies occ(s1 + s2, k) == occ(s1, k) + occ(
        s2,
        k,
    ) by {
        lemma_occ_split(s1, s2, k);
    }
    let t = tally(s1 + s2);
    let m = merged(tally(s1), tally(s2));
    assert(t.dom() =~= m.dom());
    assert forall|k: Seq<u8>| t.dom().contains(k) implies t[k] == m[k] by {
        lemma_occ_bounds(s1, k);
        lemma_occ_bounds(s2, k);
        lemma_occ_bounds(s1 + s2, k);
        lemma_occ_split(s1, s2, k);
    }
    assert(t =~= m);
}

/// Sorts in ascending order, preserving the values as a multiset.
fn sort_u64_asc(v: Vec<u64>) -> (r: Vec<u64>)
    ensures
        r@.len() == v@.len(),
        r@.to_multiset() == v@.to_multiset(),
        forall|i: int, j: int| 0 <= i < j < r@.len() ==> r@[i] <= r@[j],
{
    broadcast use group_to_multiset_ensures;

    let mut rem = v;
    let ghost orig = rem@;
    let mut out: Vec<u64> = Vec::new();
    proof {
        assert(out@.to_multiset().add(rem@.to_multiset()) =~= orig.to_multiset());
    }
    while rem.len() > 0
        invariant
            out@.to_multiset().add(rem@.to_multiset()) == orig.to_multiset(),
            out@.len() + rem@.len() == orig.len(),
            forall|i: int, j: int| 0 <= i < j < out@.len() ==> out@[i] <= out@[j],
            forall|i: int, j: int|
                0 <= i < out@.len() && 0 <= j < rem@.len() ==> out@[i] <= rem@[j],
        decreases rem@.len(),
    {
        // Find the least remaining value.
        let mut m: usize = 0;
        let mut i: usize = 1;
        while i < rem.len()
            invariant
                0 <= m < i <= rem@.len(),
                forall|j: int| 0 <= j < i ==> rem@[m as int] <= rem@[j],
            decreases rem@.len() - i,
        {
            if rem[i] < rem[m] {
                m = i;
            }
            i = i + 1;
        }
        let ghost rem0 = rem@;
        let ghost out0 = out@;
        let x = rem.remove(m);
        out.push(x);
        proof {
            broadcast use group_to_multiset_ensures;

            assert(rem0.contains(rem0[m as int]));
            assert(rem0.to_multiset().contains(x));
            assert(out@.to_multiset() =~= out0.to_multiset().insert(x));
            assert(rem@.to_multiset() =~= rem0.to_multiset().remove(x));
            assert(out@.to_multiset().add(rem@.to_multiset()) =~= orig.to_multiset());
            assert forall|i: int, j: int|
                0 <= i < out@.len() && 0 <= j < rem@.len() implies out@[i] <= rem@[j] by {
                let bj = if j < m {
                    j
                } else {
                    j + 1
                };
                assert(rem@[j] == rem0[bj]);
                if i < out0.len() {
                } else {
                    assert(out@[i] == x);
                }
            }
        }
    }
    out
}

/// Sorts entries into descending result order: highest count first, ties by
/// descending key. Keys stay unique and every entry is preserved.
fn sort_entries_desc(v: Vec<KeyCount>) -> (r: Vec<KeyCount>)
    requires
        unique_keys(v@),
    ensures
        r@.len() == v@.len(),
        r@.to_multiset() == v@.to_multiset(),
        unique_keys(r@),
        forall|i: int, j: int| 0 <= i < j < r@.len() ==> entry_le_e(r@[j], r@[i]),
{
    let mut rem = v;
    let ghost orig = rem@;
    let mut out: Vec<KeyCount> = Vec::new();
    proof {
        broadcast use group_to_multiset_ensures;

        assert(out@.to_multiset().add(rem@.to_multiset()) =~= orig.to_multiset());
    }
    while rem.len() > 0
        invariant
            out@.to_multiset().add(rem@.to_multiset()) == orig.to_multiset(),
            out@.len() + rem@.len() == orig.len(),
            unique_keys(out@),
            unique_keys(rem@),
            forall|i: int, j: int|
                0 <= i < out@.len() && 0 <= j < rem@.len() ==> out@[i].key@ != rem@[j].key@,
            forall|i: int, j: int| 0 <= i < j < out@.len() ==> entry_le_e(out@[j], out@[i]),
            forall|i: int, j: int|
                0 <= i < out@.len() && 0 <= j < rem@.len() ==> entry_le_e(rem@[j], out@[i]),
        decreases rem@.len(),
    {
        // Find the greatest remaining entry.
        let mut m: usize = 0;
        let mut i: usize = 1;
        proof {
            lemma_lex_le_total(rem@[0].key@, rem@[0].key@);
        }
        while i < rem.len()
            invariant
                0 <= m < i <= rem@.len(),
                forall|j: int| 0 <= j < i ==> entry_le_e(rem@[j], rem@[m as int]),
            decreases rem@.len() - i,
        {
            if entry_le_exec(&rem[m], &rem[i]) {
                proof {
                    assert forall|j: int| 0 <= j < i + 1 implies entry_le_e(
                        rem@[j],
                        rem@[i as int],
                    ) by {
                        if j < i {
                            lemma_entry_le_trans(rem@[j], rem@[m as int], rem@[i as int]);
                        } else {
                            lemma_lex_le_total(rem@[i as int].key@, rem@[i as int].key@);
                        }
                    }
                }
                m = i;
            } else {
                proof {
                    assert(entry_le_e(rem@[i as int], rem@[m as int])) by {
                        lemma_lex_le_total(rem@[m as int].key@, rem@[i as int].key@);
                    }
                }
            }
            i = i + 1;
        }
        let ghost rem0 = rem@;
        let ghost out0 = out@;
        let x = rem.remove(m);
        out.push(x);
        proof {
            broadcast use group_to_multiset_ensures;

            assert(rem0.contains(rem0[m as int]));
            assert(out@.to_multiset() =~= out0.to_multiset().insert(x));
            assert(rem@.to_multiset() =~= rem0.to_multiset().remove(x));
            assert(out@.to_multiset().add(rem@.to_multiset()) =~= orig.to_multiset());
            assert forall|i: int, j: int|
                0 <= i < out@.len() && 0 <= j < rem@.len() implies out@[i].key@ != rem@[j].key@
                && entry_le_e(rem@[j], out@[i]) by {
                let bj = if j < m {
                    j
                } else {
                    j + 1
                };
                assert(rem@[j] == rem0[bj]);
                if i < out0.len() {
                } else {
                    assert(out@[i] == x && x == rem0[m as int]);
                }
            }
            assert forall|i: int, j: int| 0 <= i < j < out@.len() implies entry_le_e(
                out@[j],
                out@[i],
            ) by {
                if j == out@.len() - 1 {
                    assert(out@[j] == x && x == rem0[m as int]);
                }
            }
        }
    }
    out
}

} // verus!
