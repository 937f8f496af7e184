//! Key extraction: deriving a composite key from the selected fields of a
//! line. Fields are delimited by single space or tab bytes; the split is
//! bounded by the highest field requested, so the tail of a long line is
//! never scanned.

use vstd::prelude::*;

verus! {

/// The field separator bytes: space and horizontal tab.
pub open spec fn is_sep(c: u8) -> bool {
    c == 32 || c == 9
}

/// The index of the first separator at or after `j`, or the end of the
/// buffer if none remains.
pub open spec fn sep_pos(b: Seq<u8>, j: int) -> int
    decreases b.len() - j,
        when 0 <= j <= b.len()
{
    if j >= b.len() {
        b.len() as int
    } else if is_sep(b[j]) {
        j
    } else {
        sep_pos(b, j + 1)
    }
}

pub proof fn lemma_sep_pos(b: Seq<u8>, j: int)
    requires
        0 <= j <= b.len(),
    ensures
        j <= sep_pos(b, j) <= b.len(),
        sep_pos(b, j) < b.len() ==> is_sep(b[sep_pos(b, j)]),
        forall|i: int| j <= i < sep_pos(b, j) ==> !is_sep(b[i]),
    decreases b.len() - j,
{
    if j < b.len() && !is_sep(b[j]) {
        lemma_sep_pos(b, j + 1);
    }
}

/// The fields of `b` from position `start` on, split on single separator
/// bytes into at most `remaining` segments; the last segment is the
/// unsplit remainder.
pub open spec fn split_from(b: Seq<u8>, start: int, remaining: int) -> Seq<Seq<u8>>
    decreases remaining,
        when 0 <= start <= b.len() && remaining >= 1
{
    if remaining <= 1 {
        seq![b.subrange(start, b.len() as int)]
    } else {
        let i = sep_pos(b, start);
        if i == b.len() {
            seq![b.subrange(start, b.len() as int)]
        } else {
            proof {
                lemma_sep_pos(b, start);
            }
            seq![b.subrange(start, i)] + split_from(b, i + 1, remaining - 1)
        }
    }
}

/// The fields of `b`, split into at most `limit` segments.
pub open spec fn split_fields(b: Seq<u8>, limit: int) -> Seq<Seq<u8>> {
    split_from(b, 0, limit)
}

/// The requested fields, in request order, joined with single spaces.
/// Indices are 1-based into `fs`.
pub open spec fn selected_key(fs: Seq<Seq<u8>>, ks: Seq<usize>) -> Seq<u8>
    decreases ks.len(),
{
    if ks.len() == 0 {
        Seq::empty()
    } else if ks.len() == 1 {
        fs[ks[0] - 1]
    } else {
        selected_key(fs, ks.drop_last()) + seq![32u8] + fs[ks.last() - 1]
    }
}

/// A field-index list is valid when every index is at least one and no
/// index repeats.
pub open spec fn valid_field_spec(ks: Seq<usize>) -> bool {
    &&& forall|i: int| 0 <= i < ks.len() ==> ks[i] >= 1
    &&& forall|i: int, j: int| 0 <= i < j < ks.len() ==> ks[i] != ks[j]
}

/// The largest requested index, or zero when none is requested.
pub open spec fn max_index(ks: Seq<usize>) -> int
    decreases ks.len(),
{
    if ks.len() == 0 {
        0
    } else {
        let rest = max_index(ks.drop_last());
        if ks.last() >= rest {
            ks.last() as int
        } else {
            rest
        }
    }
}

pub proof fn lemma_max_index(ks: Seq<usize>)
    ensures
        max_index(ks) >= 0,
        forall|i: int| 0 <= i < ks.len() ==> ks[i] <= max_index(ks),
    decreases ks.len(),
{
    if ks.len() > 0 {
        lemma_max_index(ks.drop_last());
        assert(forall|i: int| 0 <= i < ks.len() - 1 ==> ks[i] == ks.drop_last()[i]);
    }
}

/// The key derived from `line` for the requested field indices: the whole
/// line when no field is requested, otherwise the requested fields joined in
/// request order, or nothing when some requested field is missing.
pub open spec fn spec_key(keys: Option<Seq<usize>>, line: Seq<u8>) -> Option<Seq<u8>> {
    match keys {
        None => Some(line),
        Some(ks) => if ks.len() == 0 {
            Some(line)
        } else {
            let fs = split_fields(line, max_index(ks) + 1);
            if forall|j: int| 0 <= j < ks.len() ==> ks[j] <= fs.len() {
                Some(selected_key(fs, ks))
            } else {
                None
            }
        },
    }
}

/// A line that could not yield a key: some requested field is missing.
#[derive(Clone, Copy, Debug, PartialEq, Eq, Structural)]
pub enum KeyError {
    NotEnoughFields,
}

/// A rejected field selection.
#[derive(Clone, Copy, Debug, PartialEq, Eq, Structural)]
pub enum ConfigError {
    /// Field indices are 1-based; zero selects nothing.
    ZeroFieldIndex,
    /// A field index may be requested at most once.
    DuplicateFieldIndex,
}

/// Derives composite keys from lines, given an ordered selection of 1-based
/// field indices.
pub struct KeyFinder {
    keys: Option<Vec<usize>>,
    last: usize,
}

impl KeyFinder {
    /// The configured field selection.
    pub closed spec fn spec_keys(self) -> Option<Seq<usize>> {
        match self.keys {
            None => None,
            Some(v) => Some(v@),
        }
    }

    pub closed spec fn wf(self) -> bool {
        match self.keys {
            None => true,
            Some(v) => valid_field_spec(v@) && self.last as int == max_index(v@) && self.last
                < usize::MAX,
        }
    }

    /// Accepts an ordered field selection, rejecting a zero or repeated
    /// index; no selection (or an empty one) means the whole line is the key.
    pub fn new(keys: Option<Vec<usize>>) -> (r: Result<KeyFinder, ConfigError>)
        requires
            match keys {
                None => true,
                Some(v) => forall|i: int| 0 <= i < v@.len() ==> v@[i] < usize::MAX,
            },
        ensures
            match r {
                Ok(kf) => {
                    &&& kf.wf()
                    &&& kf.spec_keys() == match keys {
                        None => None::<Seq<usize>>,
                        Some(v) => Some(v@),
                    }
                    &&& match keys {
                        None => true,
                        Some(v) => valid_field_spec(v@),
                    }
                },
                Err(e) => match keys {
                    None => false,
                    Some(v) => !valid_field_spec(v@),
                },
            },
    {
        let v = match keys {
            None => {
                return Ok(KeyFinder { keys: None, last: 0 });
            },
            Some(v) => v,
        };
        let n = v.len();
        let mut i: usize = 0;
        let mut last: usize = 0;
        while i < n
            invariant
                keys == Some(v),
                0 <= i <= n,
                n == v@.len(),
                forall|j: int| 0 <= j < n ==> v@[j] < usize::MAX,
                forall|j: int| 0 <= j < i ==> v@[j] >= 1,
                forall|j: int, l: int| 0 <= j < l < i ==> v@[j] != v@[l],
                last as int == max_index(v@.subrange(0, i as int)),
                last < usize::MAX,
            decreases n - i,
        {
            let x = v[i];
            if x == 0 {
                proof {
                    assert(v@[i as int] == 0);
                    assert(!valid_field_spec(v@));
                }
                return Err(ConfigError::ZeroFieldIndex);
            }
            let mut j: usize = 0;
            while j < i
                invariant
                    keys == Some(v),
                    0 <= j <= i < n,
                    n == v@.len(),
                    x == v@[i as int],
                    forall|l: int| 0 <= l < j ==> v@[l] != x,
                decreases i - j,
            {
                if v[j] == x {
                    proof {
                        assert(v@[j as int] == v@[i as int]);
                        assert(!valid_field_spec(v@));
                    }
                    return Err(ConfigError::DuplicateFieldIndex);
                }
                j = j + 1;
            }
            proof {
                lemma_max_index(v@.subrange(0, i as int));
                assert(v@.subrange(0, i as int + 1).drop_last() =~= v@.subrange(0, i as int));
            }
            if x > last {
                last = x;
            }
            i = i + 1;
        }
        proof {
            assert(v@.subrange(0, n as int) =~= v@);
        }
        Ok(KeyFinder { keys: Some(v), last })
    }

    /// Derives the key for one line, or reports that a requested field is
    /// missing.
    pub fn key(&self, record: &Vec<u8>) -> (r: Result<Vec<u8>, KeyError>)
        requires
            self.wf(),
        ensures
            match r {
                Ok(k) => spec_key(self.spec_keys(), record@) == Some(k@),
                Err(e) => spec_key(self.spec_keys(), record@) is None && e
                    == KeyError::NotEnoughFields,
            },
    {
        let v = match &self.keys {
            None => {
                return Ok(crate::copy_bytes(record));
            },
            Some(v) => v,
        };
        if v.len() == 0 {
            return Ok(crate::copy_bytes(record));
        }
        let ghost ks = v@;
        let ghost b = record@;
        let limit: usize = self.last + 1;
        let ghost fs = split_fields(b, limit as int);
        let n = record.len();

        // Split the record, but no further than the highest field requested.
        let mut fields: Vec<(usize, usize)> = Vec::new();
        let mut start: usize = 0;
        let mut remaining: usize = limit;
        proof {
            assert(range_seqs(fields@, b) =~= Seq::<Seq<u8>>::empty());
            assert(fs == range_seqs(fields@, b) + split_from(b, start as int, remaining as int));
        }
        while remaining > 1
            invariant_except_break
                1 <= remaining <= limit,
                start <= n,
                n == b.len(),
                b == record@,
                fs == split_fields(b, limit as int),
                ranges_wf(fields@, n),
                fs == range_seqs(fields@, b) + split_from(b, start as int, remaining as int),
            ensures
                start <= n,
                n == b.len(),
                b == record@,
                fs == split_fields(b, limit as int),
                ranges_wf(fields@, n),
                fs == range_seqs(fields@, b) + seq![b.subrange(start as int, n as int)],
            decreases remaining,
        {
            let j = find_sep(record, start);
            if j == n {
                proof {
                    assert(split_from(b, start as int, remaining as int) == seq![
                        b.subrange(start as int, n as int),
                    ]);
                }
                break ;
            }
            proof {
                lemma_sep_pos(b, start as int);
                assert(split_from(b, start as int, remaining as int) == seq![
                    b.subrange(start as int, j as int),
                ] + split_from(b, j as int + 1, remaining as int - 1));
            }
            let ghost fields_old = fields@;
            fields.push((start, j));
            proof {
                assert(range_seqs(fields@, b) =~= range_seqs(fields_old, b) + seq![
                    b.subrange(start as int, j as int),
                ]);
                assert(fs =~= range_seqs(fields@, b) + split_from(
                    b,
                    j as int + 1,
                    remaining as int - 1,
                ));
            }
            start = j + 1;
            remaining = remaining - 1;
        }
        let ghost fields_old = fields@;
        fields.push((start, n));
        proof {
            assert(range_seqs(fields@, b) =~= range_seqs(fields_old, b) + seq![
                b.subrange(start as int, n as int),
            ]);
            assert(fs =~= range_seqs(fields@, b));
            assert(fs.len() == fields@.len());
        }

        // Pull the requested fields in the caller's order.
        let nf = fields.len();
        let kn = v.len();
        let mut out: Vec<u8> = Vec::new();
        let mut t: usize = 0;
        while t < kn
            invariant
                self.keys == Some(*v),
                ks == v@,
                valid_field_spec(ks),
                limit as int == max_index(ks) + 1,
                b == record@,
                0 <= t <= kn,
                kn == ks.len(),
                nf == fields@.len() == fs.len(),
                fs == split_fields(b, limit as int),
                fs == range_seqs(fields@, b),
                ranges_wf(fields@, n),
                n == b.len(),
                forall|j: int| 0 <= j < t ==> #[trigger] ks[j] <= fs.len(),
                out@ == selected_key(fs, ks.subrange(0, t as int)),
            decreases kn - t,
        {
            let idx = v[t];
            if idx > nf {
                proof {
                    assert(ks[t as int] > fs.len());
                    assert(spec_key(self.spec_keys(), record@) is None);
                }
                return Err(KeyError::NotEnoughFields);
            }
            if t > 0 {
                out.push(32);
            }
            let rg = fields[idx - 1];
            push_range(&mut out, record, rg.0, rg.1);
            proof {
                let tt = t as int;
                assert(fs[ks[tt] - 1] == b.subrange(
                    fields@[ks[tt] - 1].0 as int,
                    fields@[ks[tt] - 1].1 as int,
                ));
                if t == 0 {
                    assert(out@ =~= selected_key(fs, ks.subrange(0, 1)));
                } else {
                    assert(ks.subrange(0, tt + 1).drop_last() =~= ks.subrange(0, tt));
                    assert(ks.subrange(0, tt + 1).last() == ks[tt]);
                    assert(out@ =~= selected_key(fs, ks.subrange(0, tt + 1)));
                }
            }
            t = t + 1;
        }
        proof {
            assert(ks.subrange(0, kn as int) =~= ks);
            assert(spec_key(self.spec_keys(), record@) == Some(out@));
        }
        Ok(out)
    }
}

/// Every stored range lies within the record and is well ordered.
pub open spec fn ranges_wf(rs: Seq<(usize, usize)>, n: usize) -> bool {
    forall|i: int| 0 <= i < rs.len() ==> #[trigger] rs[i].0 <= rs[i].1 <= n
}

/// The byte segments the stored ranges denote.
pub open spec fn range_seqs(rs: Seq<(usize, usize)>, b: Seq<u8>) -> Seq<Seq<u8>> {
    rs.map_values(|p: (usize, usize)| b.subrange(p.0 as int, p.1 as int))
}

/// Scans forward from `from` for the next separator byte.
fn find_sep(b: &Vec<u8>, from: usize) -> (j: usize)
    requires
        from <= b@.len(),
    ensures
        j == sep_pos(b@, from as int),
        from <= j <= b@.len(),
{
    proof {
        lemma_sep_pos(b@, from as int);
    }
    let n = b.len();
    let mut i: usize = from;
    while i < n && !(b[i] == 32 || b[i] == 9)
        invariant
            from <= i <= n,
            n == b@.len(),
            sep_pos(b@, from as int) == sep_pos(b@, i as int),
        decreases n - i,
    {
        i = i + 1;
    }
    i
}

/// Appends the bytes of `b[s..e]` to `out`.
fn push_range(out: &mut Vec<u8>, b: &Vec<u8>, s: usize, e: usize)
    requires
        s <= e <= b@.len(),
    ensures
        final(out)@ == old(out)@ + b@.subrange(s as int, e as int),
{
    let mut i: usize = s;
    while i < e
        invariant
            s <= i <= e <= b@.len(),
            out@ == old(out)@ + b@.subrange(s as int, i as int),
        decreases e - i,
    {
        out.push(b[i]);
        proof {
            assert(out@ =~= old(out)@ + b@.subrange(s as int, i as int + 1));
        }
        i = i + 1;
    }
}

} // verus!
