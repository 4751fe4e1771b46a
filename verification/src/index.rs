//! The substring index: one corpus holding every record's lowercased name
//! in record order, separated by a sentinel byte, plus a sorted boundary
//! table mapping a corpus offset back to the record that owns it.  One
//! corpus-wide index avoids a per-record index object and resolves an
//! offset in logarithmic time; the sentinel keeps a match from spanning
//! two adjacent names.

use vstd::prelude::*;
use vstd::string::StringSliceAdditionalSpecFns;
use crate::models::LocationRecord;
use crate::text::bytes_of;

verus! {

/// Separates names in the corpus; well-formed records never contain it.
pub const SENTINEL: u8 = 0;

/// The corpus bytes: every lowercased name in record order, a sentinel
/// between neighbours, no trailing sentinel.
pub open spec fn corpus_of(recs: Seq<LocationRecord>) -> Seq<u8>
    decreases recs.len(),
{
    if recs.len() == 0 {
        Seq::empty()
    } else if recs.len() == 1 {
        bytes_of(recs[0].name_lower@)
    } else {
        corpus_of(recs.drop_last()) + seq![SENTINEL] + bytes_of(recs.last().name_lower@)
    }
}

/// The corpus offset at which each record's name begins.
pub open spec fn boundaries_of(recs: Seq<LocationRecord>) -> Seq<int>
    decreases recs.len(),
{
    if recs.len() == 0 {
        Seq::empty()
    } else if recs.len() == 1 {
        seq![0]
    } else {
        boundaries_of(recs.drop_last()).push(corpus_of(recs.drop_last()).len() as int + 1)
    }
}

/// Boundaries are strictly increasing offsets into the corpus, starting
/// at zero.
pub proof fn lemma_boundaries_shape(recs: Seq<LocationRecord>)
    ensures
        boundaries_of(recs).len() == recs.len(),
        forall|k: int|
            0 <= k < recs.len() ==> 0 <= #[trigger] boundaries_of(recs)[k] <= corpus_of(
                recs,
            ).len(),
        forall|k: int, l: int|
            0 <= k < l < recs.len() ==> boundaries_of(recs)[k] < boundaries_of(recs)[l],
        recs.len() > 0 ==> boundaries_of(recs)[0] == 0,
    decreases recs.len(),
{
    if recs.len() > 1 {
        lemma_boundaries_shape(recs.drop_last());
        let bs = boundaries_of(recs);
        let rest = boundaries_of(recs.drop_last());
        let cl = corpus_of(recs.drop_last()).len() as int;
        assert(bs == rest.push(cl + 1));
        assert(corpus_of(recs).len() == cl + 1 + bytes_of(recs.last().name_lower@).len());
        assert forall|k: int| 0 <= k < recs.len() implies 0 <= #[trigger] bs[k] <= corpus_of(
            recs,
        ).len() by {
            if k < rest.len() {
                assert(bs[k] == rest[k]);
            }
        }
        assert forall|k: int, l: int| 0 <= k < l < recs.len() implies bs[k] < bs[l] by {
            if l < rest.len() {
                assert(bs[k] == rest[k] && bs[l] == rest[l]);
            } else {
                assert(bs[k] == rest[k] && bs[l] == cl + 1);
            }
        }
    }
}

/// Consecutive boundaries are exactly one name and one sentinel apart,
/// and the corpus ends where the last name ends.
pub proof fn lemma_boundary_spacing(recs: Seq<LocationRecord>)
    ensures
        forall|i: int|
            0 <= i < recs.len() - 1 ==> boundaries_of(recs)[i + 1] == boundaries_of(recs)[i]
                + bytes_of(#[trigger] recs[i].name_lower@).len() + 1,
        recs.len() > 0 ==> corpus_of(recs).len() == boundaries_of(recs)[recs.len() - 1]
            + bytes_of(recs[recs.len() - 1].name_lower@).len(),
    decreases recs.len(),
{
    if recs.len() > 1 {
        lemma_boundary_spacing(recs.drop_last());
        lemma_boundaries_shape(recs.drop_last());
        let rest = boundaries_of(recs.drop_last());
        let bs = boundaries_of(recs);
        let cl = corpus_of(recs.drop_last()).len() as int;
        assert(bs == rest.push(cl + 1));
        assert forall|i: int| 0 <= i < recs.len() - 1 implies bs[i + 1] == bs[i] + bytes_of(
            #[trigger] recs[i].name_lower@,
        ).len() + 1 by {
            if i < recs.len() - 2 {
                assert(bs[i] == rest[i] && bs[i + 1] == rest[i + 1]);
                assert(recs.drop_last()[i] == recs[i]);
                assert(recs.drop_last()[i + 1] == recs[i + 1]);
            } else {
                assert(bs[i] == rest[i] && bs[i + 1] == cl + 1);
                assert(recs.drop_last()[i] == recs[i]);
            }
        }
    }
}

/// The sentinel does what it is for: a match of a sentinel-free pattern
/// never spans two names — it lies wholly inside one record's name, at
/// the offset the boundary table gives.
pub proof fn lemma_sentinel_isolates_names(recs: Seq<LocationRecord>, pat: Seq<u8>, o: int)
    requires
        pat.len() >= 1,
        !pat.contains(SENTINEL),
        is_match_at(corpus_of(recs), pat, o),
    ensures
        exists|i: int|
            #![auto]
            0 <= i < recs.len() && boundaries_of(recs)[i] <= o && o + pat.len() <= boundaries_of(
                recs,
            )[i] + bytes_of(recs[i].name_lower@).len() && bytes_of(recs[i].name_lower@).subrange(
                o - boundaries_of(recs)[i],
                o - boundaries_of(recs)[i] + pat.len(),
            ) == pat,
    decreases recs.len(),
{
    let c = corpus_of(recs);
    assert forall|idx: int| 0 <= idx < pat.len() implies pat[idx] != SENTINEL by {
        if pat[idx] == SENTINEL {
            assert(pat.contains(SENTINEL));
        }
    }
    if recs.len() <= 1 {
        assert(recs.len() == 1);
        let nm = bytes_of(recs[0].name_lower@);
        assert(c == nm);
        assert(boundaries_of(recs)[0] == 0);
        assert(nm.subrange(o - 0, o - 0 + pat.len()) == pat);
        assert(0 <= 0 < recs.len() && boundaries_of(recs)[0] <= o && o + pat.len()
            <= boundaries_of(recs)[0] + bytes_of(recs[0].name_lower@).len() && bytes_of(
            recs[0].name_lower@,
        ).subrange(
            o - boundaries_of(recs)[0],
            o - boundaries_of(recs)[0] + pat.len(),
        ) == pat);
    } else {
        let cp = corpus_of(recs.drop_last());
        let nm = bytes_of(recs.last().name_lower@);
        let ll = cp.len() as int;
        assert(c == cp + seq![SENTINEL] + nm);
        lemma_boundaries_shape(recs.drop_last());
        assert(boundaries_of(recs) == boundaries_of(recs.drop_last()).push(ll + 1));
        assert(c[ll] == SENTINEL);
        let m = pat.len() as int;
        // The sentinel position cannot lie under the match.
        assert(!(o <= ll < o + m)) by {
            if o <= ll < o + m {
                assert(c.subrange(o, o + m)[ll - o] == pat[ll - o]);
                assert(c[ll] == pat[ll - o]);
            }
        }
        if o + m <= ll {
            assert(is_match_at(cp, pat, o)) by {
                assert(cp.subrange(o, o + m) =~= c.subrange(o, o + m));
            }
            lemma_sentinel_isolates_names(recs.drop_last(), pat, o);
            let i = choose|i: int|
                #![auto]
                0 <= i < recs.drop_last().len() && boundaries_of(recs.drop_last())[i] <= o && o
                    + pat.len() <= boundaries_of(recs.drop_last())[i] + bytes_of(
                    recs.drop_last()[i].name_lower@,
                ).len() && bytes_of(recs.drop_last()[i].name_lower@).subrange(
                    o - boundaries_of(recs.drop_last())[i],
                    o - boundaries_of(recs.drop_last())[i] + pat.len(),
                ) == pat;
            assert(boundaries_of(recs)[i] == boundaries_of(recs.drop_last())[i]);
            assert(recs[i] == recs.drop_last()[i]);
            assert(0 <= i < recs.len() && boundaries_of(recs)[i] <= o && o + pat.len()
                <= boundaries_of(recs)[i] + bytes_of(recs[i].name_lower@).len() && bytes_of(
                recs[i].name_lower@,
            ).subrange(
                o - boundaries_of(recs)[i],
                o - boundaries_of(recs)[i] + pat.len(),
            ) == pat);
        } else {
            assert(o > ll);
            let b = ll + 1;
            let i = recs.len() - 1;
            assert(boundaries_of(recs)[i] == b);
            assert(o + m <= c.len());
            assert(c.len() == b + nm.len());
            assert(nm.subrange(o - b, o - b + m) =~= c.subrange(o, o + m)) by {
                assert forall|p: int| 0 <= p < m implies #[trigger] nm.subrange(
                    o - b,
                    o - b + m,
                )[p] == c.subrange(o, o + m)[p] by {
                    assert(c[o + p] == nm[o - b + p]);
                }
            }
            assert(0 <= i < recs.len() && boundaries_of(recs)[i] <= o && o + pat.len()
                <= boundaries_of(recs)[i] + bytes_of(recs[i].name_lower@).len() && bytes_of(
                recs[i].name_lower@,
            ).subrange(
                o - boundaries_of(recs)[i],
                o - boundaries_of(recs)[i] + pat.len(),
            ) == pat);
        }
    }
}

/// Appends `src` to `dst`.
fn push_bytes(dst: &mut Vec<u8>, src: &[u8])
    ensures
        final(dst)@ == old(dst)@ + src@,
{
    let mut m: usize = 0;
    while m < src.len()
        invariant
            0 <= m <= src@.len(),
            dst@ == old(dst)@ + src@.take(m as int),
        decreases src@.len() - m,
    {
        dst.push(src[m]);
        proof {
            assert(old(dst)@ + src@.take(m as int + 1) =~= (old(dst)@ + src@.take(m as int)).push(
                src@[m as int],
            ));
        }
        m += 1;
    }
    proof {
        assert(src@.take(src@.len() as int) =~= src@);
    }
}

/// `p` occurs in `c` starting at offset `o`.
pub open spec fn is_match_at(c: Seq<u8>, p: Seq<u8>, o: int) -> bool {
    0 <= o && o + p.len() <= c.len() && c.subrange(o, o + p.len()) == p
}

/// The corpus and its boundary table, built once over the record store.
pub struct SubstringIndex {
    pub corpus: Vec<u8>,
    pub boundaries: Vec<usize>,
}

impl SubstringIndex {
    /// The boundary table is fit for offset resolution.
    pub open spec fn wf(self) -> bool {
        &&& self.boundaries@.len() > 0
        &&& self.boundaries@[0] == 0
        &&& forall|k: int, l: int|
            0 <= k < l < self.boundaries@.len() ==> self.boundaries@[k] < self.boundaries@[l]
    }

    /// Concatenates the store's lowercased names into the corpus and
    /// records where each name begins.
    pub fn build(locations: &Vec<LocationRecord>) -> (idx: SubstringIndex)
        ensures
            idx.corpus@ == corpus_of(locations@),
            idx.boundaries@.len() == locations@.len(),
            forall|k: int|
                0 <= k < locations@.len() ==> (#[trigger] idx.boundaries@[k]) as int
                    == boundaries_of(locations@)[k],
            locations@.len() > 0 ==> idx.wf(),
    {
        let n = locations.len();
        let mut corpus: Vec<u8> = Vec::new();
        let mut boundaries: Vec<usize> = Vec::new();
        let mut i: usize = 0;
        while i < n
            invariant
                0 <= i <= n,
                n == locations@.len(),
                corpus@ == corpus_of(locations@.take(i as int)),
                boundaries@.len() == i,
                forall|k: int|
                    0 <= k < i ==> (#[trigger] boundaries@[k]) as int == boundaries_of(
                        locations@.take(i as int),
                    )[k],
            decreases n - i,
        {
            proof {
                assert(locations@.take(i as int + 1).drop_last() =~= locations@.take(i as int));
                assert(locations@.take(i as int + 1).last() == locations@[i as int]);
                lemma_boundaries_shape(locations@.take(i as int));
            }
            if i > 0 {
                corpus.push(SENTINEL);
            }
            boundaries.push(corpus.len());
            let rec = &locations[i];
            push_bytes(&mut corpus, rec.name_lower.as_str().as_bytes());
            proof {
                let upto = locations@.take(i as int + 1);
                if i == 0 {
                    assert(corpus@ =~= corpus_of(upto));
                } else {
                    assert(corpus@ =~= corpus_of(upto.drop_last()) + seq![SENTINEL] + bytes_of(
                        upto.last().name_lower@,
                    ));
                }
            }
            i += 1;
        }
        proof {
            assert(locations@.take(n as int) =~= locations@);
            lemma_boundaries_shape(locations@);
        }
        SubstringIndex { corpus, boundaries }
    }

    /// Every offset at which `pat` occurs in the corpus, in increasing
    /// order.  The corpus holds lowercased names, so callers lowercase
    /// the pattern first.
    pub fn occurrences(&self, pat: &[u8]) -> (r: Vec<usize>)
        ensures
            forall|k: int|
                0 <= k < r@.len() ==> is_match_at(self.corpus@, pat@, (#[trigger] r@[k]) as int),
            forall|o: usize| is_match_at(self.corpus@, pat@, o as int) ==> r@.contains(o),
            forall|k: int, l: int| 0 <= k < l < r@.len() ==> r@[k] < r@[l],
    {
        let m = pat.len();
        let n = self.corpus.len();
        let mut r: Vec<usize> = Vec::new();
        if m > n {
            return r;
        }
        let mut o: usize = 0;
        let mut done = false;
        while !done
            invariant
                m == pat@.len(),
                n == self.corpus@.len(),
                m <= n,
                0 <= o <= n - m,
                forall|k: int|
                    0 <= k < r@.len() ==> is_match_at(
                        self.corpus@,
                        pat@,
                        (#[trigger] r@[k]) as int,
                    ),
                !done ==> forall|u: usize|
                    u < o && is_match_at(self.corpus@, pat@, u as int) ==> r@.contains(u),
                done ==> forall|u: usize|
                    is_match_at(self.corpus@, pat@, u as int) ==> r@.contains(u),
                forall|k: int, l: int| 0 <= k < l < r@.len() ==> r@[k] < r@[l],
                forall|k: int| 0 <= k < r@.len() ==> (#[trigger] r@[k]) <= o,
                !done ==> forall|k: int| 0 <= k < r@.len() ==> (#[trigger] r@[k]) < o,
            decreases (if done {
                0int
            } else {
                1int
            }), n - m - o,
        {
            let mut p: usize = 0;
            let mut hit = true;
            while p < m && hit
                invariant
                    0 <= p <= m,
                    m == pat@.len(),
                    n == self.corpus@.len(),
                    o + m <= n,
                    hit ==> forall|u: int| 0 <= u < p ==> self.corpus@[o + u] == pat@[u],
                    !hit ==> !is_match_at(self.corpus@, pat@, o as int),
                decreases m - p, (if hit {
                    1int
                } else {
                    0int
                }),
            {
                if self.corpus[o + p] != pat[p] {
                    proof {
                        assert(self.corpus@.subrange(o as int, o + m as int)[p as int]
                            != pat@[p as int]);
                    }
                    hit = false;
                } else {
                    p += 1;
                }
            }
            let ghost r_old = r@;
            if hit {
                proof {
                    assert(self.corpus@.subrange(o as int, o + m as int) =~= pat@);
                }
                r.push(o);
            }
            proof {
                assert forall|u: usize|
                    u <= o && is_match_at(self.corpus@, pat@, u as int) implies r@.contains(u) by {
                    if u < o {
                        assert(r_old.contains(u));
                        let k = choose|k: int| 0 <= k < r_old.len() && r_old[k] == u;
                        assert(r@[k] == u);
                    } else {
                        assert(is_match_at(self.corpus@, pat@, o as int));
                        assert(r@[r@.len() - 1] == o);
                    }
                }
            }
            if o == n - m {
                done = true;
                proof {
                    assert forall|u: usize|
                        is_match_at(self.corpus@, pat@, u as int) implies r@.contains(u) by {
                        assert(u as int + m <= n);
                        assert(u <= o);
                    }
                }
            } else {
                o += 1;
            }
        }
        r
    }

    /// The record owning a corpus offset: the greatest position whose
    /// boundary does not exceed the offset, found by binary search.
    pub fn record_for_offset(&self, offset: usize) -> (r: usize)
        requires
            self.wf(),
        ensures
            r < self.boundaries@.len(),
            self.boundaries@[r as int] <= offset,
            r + 1 < self.boundaries@.len() ==> offset < self.boundaries@[r as int + 1],
    {
        let mut lo: usize = 0;
        let mut hi: usize = self.boundaries.len();
        while hi - lo > 1
            invariant
                0 <= lo < hi <= self.boundaries@.len(),
                self.wf(),
                self.boundaries@[lo as int] <= offset,
                hi < self.boundaries@.len() ==> offset < self.boundaries@[hi as int],
            decreases hi - lo,
        {
            let mid = lo + (hi - lo) / 2;
            if self.boundaries[mid] <= offset {
                lo = mid;
            } else {
                hi = mid;
            }
        }
        lo
    }
}

} // verus!
