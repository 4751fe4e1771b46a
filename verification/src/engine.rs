//! The query engine: strategy choice by query length, exact ranking of
//! the scored candidates, the geographic keep-mask, and the result cap.
//!
//! A candidate is a `(record position, score)` pair.  Ranking is by score
//! descending; an undefined score ties with everything; ties keep record
//! order, so the final order is deterministic.

use vstd::prelude::*;
use vstd::multiset::Multiset;
use vstd::string::StringSliceAdditionalSpecFns;
use crate::index::SubstringIndex;
use crate::index::boundaries_of;
use crate::index::corpus_of;
use crate::models::Error;
use crate::models::LocationRecord;
use crate::models::NAME_LIMIT;
use crate::models::Suggestion;
use crate::models::Suggestions;
use crate::score::Score;
use crate::score::lemma_cross_product_fits;
use crate::text::bytes_of;
use crate::text::lower_of;
use crate::text::lowercase;
use crate::util::prefix_match_indices;
use crate::util::prefix_total;
use crate::util::similar_match_indices;
use crate::util::similarity_ratio;
use crate::util::total_population;
use crate::util::find_prefix;
use crate::util::find_similar;
use crate::util::lemma_prefix_indices_shape;
use crate::util::lemma_similar_indices_shape;
use crate::util::lemma_prefix_total_bounds;

verus! {

/// A reply never holds more entries than this.
pub const MAX_RESULTS: usize = 20;

/// `a` is ranked strictly ahead of `b`: its score is strictly larger, or
/// the scores tie (equal ratios, or either undefined) and `a` comes first
/// in the store.
pub open spec fn ranked_before(a: (usize, Score), b: (usize, Score)) -> bool {
    if a.1.den == 0 || b.1.den == 0 {
        a.0 < b.0
    } else {
        let x = (a.1.num as int) * (b.1.den as int);
        let y = (b.1.num as int) * (a.1.den as int);
        x > y || (x == y && a.0 < b.0)
    }
}

/// Every pair of candidates is comparable: distinct store positions are
/// ranked one way or the other, never both.
proof fn lemma_ranked_connex(a: (usize, Score), b: (usize, Score))
    requires
        (a.1.den == 0) == (b.1.den == 0),
        a.0 != b.0,
    ensures
        ranked_before(a, b) || ranked_before(b, a),
        !(ranked_before(a, b) && ranked_before(b, a)),
{
}

/// Ranking is transitive over candidates whose scores are uniformly
/// defined or uniformly undefined.
proof fn lemma_ranked_trans(a: (usize, Score), b: (usize, Score), c: (usize, Score))
    requires
        (a.1.den == 0) == (b.1.den == 0),
        (b.1.den == 0) == (c.1.den == 0),
        ranked_before(a, b),
        ranked_before(b, c),
    ensures
        ranked_before(a, c),
{
    if a.1.den > 0 {
        let an = a.1.num as int;
        let ad = a.1.den as int;
        let bn = b.1.num as int;
        let bd = b.1.den as int;
        let cn = c.1.num as int;
        let cd = c.1.den as int;
        if an * bd > bn * ad {
            assert(an * cd > cn * ad) by (nonlinear_arith)
                requires
                    ad > 0,
                    bd > 0,
                    cd > 0,
                    an * bd > bn * ad,
                    bn * cd >= cn * bd,
            {}
        } else if bn * cd > cn * bd {
            assert(an * cd > cn * ad) by (nonlinear_arith)
                requires
                    ad > 0,
                    bd > 0,
                    cd > 0,
                    an * bd >= bn * ad,
                    bn * cd > cn * bd,
            {}
        } else {
            assert(an * cd == cn * ad) by (nonlinear_arith)
                requires
                    ad > 0,
                    bd > 0,
                    cd > 0,
                    an * bd == bn * ad,
                    bn * cd == cn * bd,
            {}
        }
    }
}

/// Decides `ranked_before` executably, with exact cross products.
fn ranked_before_exec(a: (usize, Score), b: (usize, Score)) -> (r: bool)
    ensures
        r == ranked_before(a, b),
{
    if a.1.den == 0 || b.1.den == 0 {
        a.0 < b.0
    } else {
        proof {
            lemma_cross_product_fits(a.1.num, b.1.den);
            lemma_cross_product_fits(b.1.num, a.1.den);
        }
        let x: u128 = (a.1.num as u128) * (b.1.den as u128);
        let y: u128 = (b.1.num as u128) * (a.1.den as u128);
        x > y || (x == y && a.0 < b.0)
    }
}

/// Strictly sorted by rank.
pub open spec fn sorted_ranked(s: Seq<(usize, Score)>) -> bool {
    forall|k: int, l: int| 0 <= k < l < s.len() ==> ranked_before(s[k], s[l])
}

/// No store position occurs twice.
pub open spec fn distinct_positions(s: Seq<(usize, Score)>) -> bool {
    forall|k: int, l: int| 0 <= k < l < s.len() ==> (#[trigger] s[k]).0 != (#[trigger] s[l]).0
}

/// All scores defined, or none: the two strategies never mix.
pub open spec fn dens_uniform(s: Seq<(usize, Score)>) -> bool {
    forall|k: int, l: int|
        0 <= k < s.len() && 0 <= l < s.len() ==> (((#[trigger] s[k]).1.den == 0) == ((
        #[trigger] s[l]).1.den == 0))
}

/// Inserting anywhere adds one occurrence, as pushing does.
proof fn lemma_insert_multiset(s: Seq<(usize, Score)>, j: int, x: (usize, Score))
    requires
        0 <= j <= s.len(),
    ensures
        s.insert(j, x).to_multiset() == s.push(x).to_multiset(),
{
    broadcast use vstd::seq_lib::group_to_multiset_ensures;

    vstd::seq_lib::lemma_multiset_commutative(s.take(j), seq![x] + s.skip(j));
    vstd::seq_lib::lemma_multiset_commutative(seq![x], s.skip(j));
    vstd::seq_lib::lemma_multiset_commutative(s.take(j), s.skip(j));
    assert(s.insert(j, x) =~= s.take(j) + (seq![x] + s.skip(j)));
    assert(s =~= s.take(j) + s.skip(j));
    assert(s.push(x) =~= (s.take(j) + s.skip(j)).push(x));
    assert(s.insert(j, x).to_multiset() =~= s.take(j).to_multiset().add(
        seq![x].to_multiset().add(s.skip(j).to_multiset()),
    ));
    assert(seq![x] =~= Seq::<(usize, Score)>::empty().push(x));
    assert(seq![x].to_multiset() =~= Multiset::<(usize, Score)>::empty().insert(x));
    assert(s.push(x).to_multiset() =~= s.to_multiset().insert(x));
    assert(s.insert(j, x).to_multiset() =~= s.to_multiset().insert(x));
}

/// Stable exact ranking: the result holds the same candidates, strictly
/// ordered by `ranked_before`.
pub fn sort_candidates(v: Vec<(usize, Score)>) -> (r: Vec<(usize, Score)>)
    requires
        distinct_positions(v@),
        dens_uniform(v@),
    ensures
        r@.to_multiset() == v@.to_multiset(),
        r@.len() == v@.len(),
        sorted_ranked(r@),
        forall|c: (usize, Score)| r@.contains(c) <==> v@.contains(c),
{
    broadcast use vstd::seq_lib::group_to_multiset_ensures;

    let n = v.len();
    let mut r: Vec<(usize, Score)> = Vec::new();
    let mut i: usize = 0;
    while i < n
        invariant
            0 <= i <= n,
            n == v@.len(),
            distinct_positions(v@),
            dens_uniform(v@),
            r@.to_multiset() == v@.take(i as int).to_multiset(),
            r@.len() == i,
            sorted_ranked(r@),
            forall|k: int| 0 <= k < r@.len() ==> v@.take(i as int).contains(#[trigger] r@[k]),
        decreases n - i,
    {
        let x = v[i];
        proof {
            assert(v@.take(i as int + 1).drop_last() =~= v@.take(i as int));
            assert(v@.take(i as int + 1).last() == v@[i as int]);
            assert forall|k: int| 0 <= k < r@.len() implies ((#[trigger] r@[k]).0 != x.0 && ((
            r@[k].1.den == 0) == (x.1.den == 0))) by {
                assert(v@.take(i as int).contains(r@[k]));
                let m = choose|m: int|
                    0 <= m < v@.take(i as int).len() && v@.take(i as int)[m] == r@[k];
                assert(v@[m] == r@[k]);
            }
        }
        let mut j: usize = 0;
        while j < r.len() && !ranked_before_exec(x, r[j])
            invariant
                0 <= j <= r@.len(),
                forall|k: int| 0 <= k < j ==> !ranked_before(x, #[trigger] r@[k]),
            decreases r@.len() - j,
        {
            j += 1;
        }
        proof {
            assert forall|k: int| 0 <= k < j implies ranked_before(#[trigger] r@[k], x) by {
                lemma_ranked_connex(r@[k], x);
            }
            if j < r@.len() {
                assert(ranked_before(x, r@[j as int]));
                assert forall|k: int| j <= k < r@.len() implies ranked_before(
                    x,
                    #[trigger] r@[k],
                ) by {
                    if k > j {
                        lemma_ranked_trans(x, r@[j as int], r@[k]);
                    }
                }
            }
            lemma_insert_multiset(r@, j as int, x);
        }
        let ghost r_old = r@;
        r.insert(j, x);
        proof {
            assert(r@ == r_old.insert(j as int, x));
            assert(v@.take(i as int + 1) =~= v@.take(i as int).push(x));
            v@.take(i as int).to_multiset_ensures();
            r_old.to_multiset_ensures();
            assert(v@.take(i as int).push(x).to_multiset() =~= v@.take(
                i as int,
            ).to_multiset().insert(x));
            assert(v@.take(i as int + 1).to_multiset() =~= v@.take(i as int).to_multiset().insert(
                x,
            ));
            assert(r_old.push(x).to_multiset() =~= r_old.to_multiset().insert(x));
            assert(r@.to_multiset() =~= r_old.to_multiset().insert(x));
            assert forall|k: int, l: int| 0 <= k < l < r@.len() implies ranked_before(
                r@[k],
                r@[l],
            ) by {
                if l < j {
                    assert(r@[k] == r_old[k] && r@[l] == r_old[l]);
                } else if l == j {
                    if k < j {
                        assert(r@[k] == r_old[k]);
                    }
                } else {
                    if k < j {
                        assert(r@[k] == r_old[k] && r@[l] == r_old[l - 1]);
                    } else if k == j {
                        assert(r@[l] == r_old[l - 1]);
                    } else {
                        assert(r@[k] == r_old[k - 1] && r@[l] == r_old[l - 1]);
                    }
                }
            }
            assert forall|k: int| 0 <= k < r@.len() implies v@.take(i as int + 1).contains(
                #[trigger] r@[k],
            ) by {
                if k < j {
                    assert(r@[k] == r_old[k]);
                    assert(v@.take(i as int).contains(r_old[k]));
                    let m = choose|m: int|
                        0 <= m < v@.take(i as int).len() && v@.take(i as int)[m] == r_old[k];
                    assert(v@.take(i as int + 1)[m] == r@[k]);
                } else if k == j {
                    assert(r@[k] == x);
                    assert(v@.take(i as int + 1)[i as int] == x);
                } else {
                    assert(r@[k] == r_old[k - 1]);
                    assert(v@.take(i as int).contains(r_old[k - 1]));
                    let m = choose|m: int|
                        0 <= m < v@.take(i as int).len() && v@.take(i as int)[m] == r_old[k - 1];
                    assert(v@.take(i as int + 1)[m] == r@[k]);
                }
            }
        }
        i += 1;
    }
    proof {
        assert(v@.take(n as int) =~= v@);
        assert forall|c: (usize, Score)| r@.contains(c) <==> v@.contains(c) by {
            assert(r@.contains(c) <==> r@.to_multiset().count(c) > 0);
            assert(v@.contains(c) <==> v@.to_multiset().count(c) > 0);
        }
    }
    r
}

/// Ranking is deterministic: two strictly ranked orders of the same
/// candidates are the same order.  Together with `sort_candidates`'
/// contract this pins the engine's output order completely.
pub proof fn lemma_ranked_order_unique(s: Seq<(usize, Score)>, t: Seq<(usize, Score)>)
    requires
        sorted_ranked(s),
        sorted_ranked(t),
        distinct_positions(s),
        dens_uniform(s),
        s.to_multiset() == t.to_multiset(),
    ensures
        s =~= t,
    decreases s.len(),
{
    broadcast use vstd::seq_lib::group_to_multiset_ensures;

    s.to_multiset_ensures();
    t.to_multiset_ensures();
    if s.len() == 0 {
        assert(t.len() == 0);
    } else {
        assert(s.contains(s[0]));
        assert(t.to_multiset().count(s[0]) > 0);
        assert(t.contains(s[0]));
        let m = choose|m: int| 0 <= m < t.len() && t[m] == s[0];
        assert(t.contains(t[0]));
        assert(s.to_multiset().count(t[0]) > 0);
        assert(s.contains(t[0]));
        let n = choose|n: int| 0 <= n < s.len() && s[n] == t[0];
        if t[0] != s[0] {
            assert(m != 0);
            assert(n != 0);
            assert(ranked_before(t[0], t[m]));
            assert(ranked_before(s[0], s[n]));
            if s[0].0 == t[0].0 {
                assert(s[0].0 == s[n].0);
                assert(false);
            }
            lemma_ranked_connex(s[0], t[0]);
            assert(false);
        }
        let s1 = s.drop_first();
        let t1 = t.drop_first();
        assert(s.remove(0) =~= s1);
        assert(t.remove(0) =~= t1);
        assert(s.remove(0).to_multiset() =~= s.to_multiset().remove(s[0]));
        assert(t.remove(0).to_multiset() =~= t.to_multiset().remove(t[0]));
        assert(s1.to_multiset() == t1.to_multiset());
        assert(sorted_ranked(s1)) by {
            assert forall|k: int, l: int| 0 <= k < l < s1.len() implies ranked_before(
                s1[k],
                s1[l],
            ) by {
                assert(s1[k] == s[k + 1] && s1[l] == s[l + 1]);
            }
        }
        assert(sorted_ranked(t1)) by {
            assert forall|k: int, l: int| 0 <= k < l < t1.len() implies ranked_before(
                t1[k],
                t1[l],
            ) by {
                assert(t1[k] == t[k + 1] && t1[l] == t[l + 1]);
            }
        }
        assert(distinct_positions(s1)) by {
            assert forall|k: int, l: int| 0 <= k < l < s1.len() implies (#[trigger] s1[k]).0 != (
            #[trigger] s1[l]).0 by {
                assert(s1[k] == s[k + 1] && s1[l] == s[l + 1]);
            }
        }
        assert(dens_uniform(s1)) by {
            assert forall|k: int, l: int|
                0 <= k < s1.len() && 0 <= l < s1.len() implies (((#[trigger] s1[k]).1.den == 0)
                == (((#[trigger] s1[l]).1.den == 0))) by {
                assert(s1[k] == s[k + 1] && s1[l] == s[l + 1]);
            }
        }
        lemma_ranked_order_unique(s1, t1);
        assert forall|k: int| 0 <= k < s.len() implies s[k] == t[k] by {
            if k > 0 {
                assert(s1[k - 1] == t1[k - 1]);
            }
        }
    }
}

// ---------------------------------------------------------------------
// Geographic keep-mask and result cap
// ---------------------------------------------------------------------
/// The caller's per-record keep-mask, as the engine sees it.
pub open spec fn mask_view(w: Option<&Vec<bool>>) -> Option<Seq<bool>> {
    match w {
        Option::None => Option::None,
        Option::Some(m) => Option::Some(m@),
    }
}

/// A candidate survives the mask: with no mask everything stays; with a
/// mask its record must be flagged.
pub open spec fn mask_keep(c: (usize, Score), w: Option<Seq<bool>>) -> bool {
    match w {
        Option::None => true,
        Option::Some(m) => c.0 < m.len() && m[c.0 as int],
    }
}

/// The candidates that survive the mask, in order.
pub open spec fn kept_within(s: Seq<(usize, Score)>, w: Option<Seq<bool>>) -> Seq<(usize, Score)>
    decreases s.len(),
{
    if s.len() == 0 {
        s
    } else {
        let rest = kept_within(s.drop_last(), w);
        if mask_keep(s.last(), w) {
            rest.push(s.last())
        } else {
            rest
        }
    }
}

/// At most the first `MAX_RESULTS` entries.
pub open spec fn capped(s: Seq<(usize, Score)>) -> Seq<(usize, Score)> {
    if s.len() <= MAX_RESULTS {
        s
    } else {
        s.take(MAX_RESULTS as int)
    }
}

/// What the mask keeps of a front part is a front part of what it keeps
/// of the whole.
proof fn lemma_kept_prefix(s: Seq<(usize, Score)>, w: Option<Seq<bool>>, i: int)
    requires
        0 <= i <= s.len(),
    ensures
        kept_within(s.take(i), w).len() <= kept_within(s, w).len(),
        forall|k: int|
            0 <= k < kept_within(s.take(i), w).len() ==> kept_within(s.take(i), w)[k]
                == kept_within(s, w)[k],
    decreases s.len() - i,
{
    if i == s.len() {
        assert(s.take(i) =~= s);
    } else {
        lemma_kept_prefix(s, w, i + 1);
        assert(s.take(i + 1).drop_last() =~= s.take(i));
        assert(s.take(i + 1).last() == s[i]);
    }
}

/// Everything the mask keeps came from the input and is flagged to stay.
proof fn lemma_kept_props(s: Seq<(usize, Score)>, w: Option<Seq<bool>>)
    ensures
        kept_within(s, w).len() <= s.len(),
        forall|k: int|
            0 <= k < kept_within(s, w).len() ==> mask_keep(#[trigger] kept_within(s, w)[k], w)
                && s.contains(kept_within(s, w)[k]),
    decreases s.len(),
{
    if s.len() > 0 {
        lemma_kept_props(s.drop_last(), w);
        let rest = kept_within(s.drop_last(), w);
        assert forall|k: int| 0 <= k < kept_within(s, w).len() implies mask_keep(
            #[trigger] kept_within(s, w)[k],
            w,
        ) && s.contains(kept_within(s, w)[k]) by {
            if k < rest.len() {
                assert(kept_within(s, w)[k] == rest[k]);
                assert(s.drop_last().contains(rest[k]));
                let m = choose|m: int|
                    0 <= m < s.drop_last().len() && s.drop_last()[m] == rest[k];
                assert(s[m] == rest[k]);
            } else {
                assert(kept_within(s, w)[k] == s.last());
                assert(s[s.len() - 1] == s.last());
            }
        }
    }
}

/// Walks the ranked candidates, drops what the mask rejects, and stops
/// at the result cap.
pub fn take_within(sorted: &Vec<(usize, Score)>, within: Option<&Vec<bool>>) -> (r: Vec<
    (usize, Score),
>)
    ensures
        r@ == capped(kept_within(sorted@, mask_view(within))),
{
    let ghost wv = mask_view(within);
    let n = sorted.len();
    let mut r: Vec<(usize, Score)> = Vec::new();
    let mut i: usize = 0;
    while i < n && r.len() < MAX_RESULTS
        invariant
            0 <= i <= n,
            n == sorted@.len(),
            wv == mask_view(within),
            r@ == kept_within(sorted@.take(i as int), wv),
            r@.len() <= MAX_RESULTS,
        decreases n - i,
    {
        proof {
            assert(sorted@.take(i as int + 1).drop_last() =~= sorted@.take(i as int));
            assert(sorted@.take(i as int + 1).last() == sorted@[i as int]);
        }
        let c = sorted[i];
        let keep = match within {
            Option::None => true,
            Option::Some(m) => c.0 < m.len() && m[c.0],
        };
        if keep {
            r.push(c);
        }
        i += 1;
    }
    proof {
        if r@.len() < MAX_RESULTS {
            assert(i == n);
            assert(sorted@.take(n as int) =~= sorted@);
        } else {
            lemma_kept_prefix(sorted@, wv, i as int);
            assert(r@ =~= capped(kept_within(sorted@, wv)));
        }
    }
    r
}

// ---------------------------------------------------------------------
// The record store with its index
// ---------------------------------------------------------------------
/// A store the engine can score: the population total fits a machine
/// word and every record is individually well-formed.
pub open spec fn wf_store(recs: Seq<LocationRecord>) -> bool {
    &&& total_population(recs) <= u64::MAX
    &&& forall|i: int| 0 <= i < recs.len() ==> (#[trigger] recs[i]).wf()
}

/// True when some byte of `b` is zero.
fn has_nul(b: &[u8]) -> (r: bool)
    ensures
        r == b@.contains(0u8),
{
    let mut k: usize = 0;
    while k < b.len()
        invariant
            0 <= k <= b@.len(),
            forall|m: int| 0 <= m < k ==> b@[m] != 0u8,
        decreases b@.len() - k,
    {
        if b[k] == 0u8 {
            return true;
        }
        k += 1;
    }
    false
}

/// The immutable context a process builds once at startup and then
/// shares read-only with every request: the record store and the
/// substring index derived from it.
pub struct Gazetteer {
    pub records: Vec<LocationRecord>,
    pub index: SubstringIndex,
}

impl Gazetteer {
    pub open spec fn wf(self) -> bool {
        &&& wf_store(self.records@)
        &&& self.index.corpus@ == corpus_of(self.records@)
        &&& self.index.boundaries@.len() == self.records@.len()
        &&& forall|k: int|
            0 <= k < self.records@.len() ==> (#[trigger] self.index.boundaries@[k]) as int
                == boundaries_of(self.records@)[k]
    }

    /// Builds the store and its index.  A store that cannot be scored —
    /// a population total beyond 64 bits, a match target beyond half the
    /// address space, or a lowercased name holding the sentinel byte —
    /// is rejected whole: a process must not start on it.
    pub fn new(records: Vec<LocationRecord>) -> (res: Result<Gazetteer, Error>)
        ensures
            match res {
                Result::Ok(g) => g.wf() && g.records@ == records@ && wf_store(records@),
                Result::Err(_) => !wf_store(records@),
            },
    {
        let n = records.len();
        let mut tot: u64 = 0;
        let mut i: usize = 0;
        while i < n
            invariant
                0 <= i <= n,
                n == records@.len(),
                tot as int == total_population(records@.take(i as int)),
                forall|m: int| 0 <= m < i ==> (#[trigger] records@[m]).wf(),
            decreases n - i,
        {
            proof {
                assert(records@.take(i as int + 1).drop_last() =~= records@.take(i as int));
                assert(records@.take(i as int + 1).last() == records@[i as int]);
            }
            let rec = &records[i];
            match tot.checked_add(rec.population) {
                Option::Some(t) => {
                    tot = t;
                },
                Option::None => {
                    proof {
                        crate::util::lemma_total_take_le(records@, i as int + 1);
                    }
                    return Result::Err(Error { err: String::from_str("invalid record store") });
                },
            }
            if crate::text::byte_len(rec.name_lower.as_str()) > NAME_LIMIT {
                return Result::Err(Error { err: String::from_str("invalid record store") });
            }
            if crate::text::byte_len(rec.name_ascii_lower.as_str()) > NAME_LIMIT {
                return Result::Err(Error { err: String::from_str("invalid record store") });
            }
            if has_nul(rec.name_lower.as_str().as_bytes()) {
                return Result::Err(Error { err: String::from_str("invalid record store") });
            }
            proof {
                assert(bytes_of(records@[i as int].name_lower@).len() <= NAME_LIMIT);
                assert(bytes_of(records@[i as int].name_ascii_lower@).len() <= NAME_LIMIT);
                assert(!bytes_of(records@[i as int].name_lower@).contains(0u8));
                assert(records@[i as int].wf());
            }
            i += 1;
        }
        proof {
            assert(records@.take(n as int) =~= records@);
        }
        let index = SubstringIndex::build(&records);
        Result::Ok(Gazetteer { records, index })
    }
}

// ---------------------------------------------------------------------
// The query entry point
// ---------------------------------------------------------------------
/// The prefix strategy's candidates: every matching record position,
/// scored at its share of the matched population.
pub open spec fn prefix_candidates(recs: Seq<LocationRecord>, qb: Seq<u8>) -> Seq<(usize, Score)> {
    Seq::new(
        prefix_match_indices(recs, qb).len(),
        |k: int|
            (
                prefix_match_indices(recs, qb)[k] as usize,
                Score {
                    num: recs[prefix_match_indices(recs, qb)[k]].population,
                    den: prefix_total(recs, qb) as u64,
                },
            ),
    )
}

/// The similarity strategy's candidates: every record position kept by
/// the threshold, with its exact dice ratio.
pub open spec fn similar_candidates(recs: Seq<LocationRecord>, qb: Seq<u8>) -> Seq<(usize, Score)> {
    Seq::new(
        similar_match_indices(recs, qb).len(),
        |k: int|
            (
                similar_match_indices(recs, qb)[k] as usize,
                Score {
                    num: similarity_ratio(recs[similar_match_indices(recs, qb)[k]], qb).0 as u64,
                    den: similarity_ratio(recs[similar_match_indices(recs, qb)[k]], qb).1 as u64,
                },
            ),
    )
}

/// Strategy choice on the lowercased query bytes `qb`: below three bytes
/// the prefix scorer, otherwise the similarity scorer.  A query too long
/// to score against any name — beyond half the address space, which no
/// real string reaches — yields nothing.
pub open spec fn query_candidates(recs: Seq<LocationRecord>, qb: Seq<u8>) -> Seq<(usize, Score)> {
    if qb.len() < 3 {
        prefix_candidates(recs, qb)
    } else if qb.len() <= NAME_LIMIT {
        similar_candidates(recs, qb)
    } else {
        Seq::empty()
    }
}

/// The reply lists exactly the picked candidates, in order: each entry
/// carries the record's display name with its country code, its
/// population, the exact score, and the record's position.
pub open spec fn reply_matches(
    recs: Seq<LocationRecord>,
    picked: Seq<(usize, Score)>,
    out: Seq<Suggestion>,
) -> bool {
    &&& out.len() == picked.len()
    &&& forall|k: int|
        0 <= k < out.len() ==> {
            let c = #[trigger] picked[k];
            &&& c.0 < recs.len()
            &&& out[k].index == c.0
            &&& out[k].score == c.1
            &&& out[k].population == recs[c.0 as int].population
            &&& out[k].name@ == recs[c.0 as int].name@ + ", "@ + recs[c.0 as int].country@
        }
}

impl Gazetteer {
    /// Answers one query: an absent or empty query is the recoverable
    /// "missing parameter" outcome; otherwise the query is lowercased, a
    /// strategy scores the candidates, the caller's keep-mask (its
    /// geographic radius, computed per record) drops what lies outside,
    /// and the ranked remainder is capped.  Each invocation is a pure
    /// function of the store and the request.
    pub fn suggest(&self, query: Option<&str>, within: Option<&Vec<bool>>) -> (res: Result<
        Suggestions,
        Error,
    >)
        requires
            self.wf(),
            match within {
                Option::Some(w) => w@.len() == self.records@.len(),
                Option::None => true,
            },
        ensures
            match res {
                Result::Err(e) => {
                    &&& match query {
                        Option::None => true,
                        Option::Some(q) => q@.len() == 0,
                    }
                    &&& e.err@ == "Missing parameter: q"@
                },
                Result::Ok(out) => {
                    &&& query matches Option::Some(q) && q@.len() > 0 && (exists|
                        sorted: Seq<(usize, Score)>,
                    |
                        {
                            &&& #[trigger] sorted.to_multiset() == query_candidates(
                                self.records@,
                                bytes_of(lower_of(q@)),
                            ).to_multiset()
                            &&& sorted_ranked(sorted)
                            &&& reply_matches(
                                self.records@,
                                capped(kept_within(sorted, mask_view(within))),
                                out.suggestions@,
                            )
                        })
                    &&& out.suggestions@.len() <= MAX_RESULTS
                    &&& match within {
                        Option::Some(w) => forall|k: int|
                            0 <= k < out.suggestions@.len() ==> (#[trigger] out.suggestions@[k]).index
                                < w@.len() && w@[out.suggestions@[k].index as int],
                        Option::None => true,
                    }
                },
            },
    {
        let q = match query {
            Option::Some(q) => q,
            Option::None => {
                return Result::Err(Error { err: String::from_str("Missing parameter: q") });
            },
        };
        if q.is_empty() {
            return Result::Err(Error { err: String::from_str("Missing parameter: q") });
        }
        let n = self.records.len();
        let lowered = lowercase(q);
        let ls = lowered.as_str();
        let ghost qb = bytes_of(lower_of(q@));
        proof {
            assert(ls.spec_bytes() == qb);
        }
        let blen = crate::text::byte_len(ls);
        let cands: Vec<(usize, Score)> = if blen < 3 {
            let v = find_prefix(ls, &self.records);
            proof {
                lemma_prefix_indices_shape(self.records@, qb);
                lemma_prefix_total_bounds(self.records@, qb);
                assert(v@ =~= prefix_candidates(self.records@, qb));
            }
            v
        } else if blen <= NAME_LIMIT {
            let v = find_similar(ls, &self.records);
            proof {
                lemma_similar_indices_shape(self.records@, qb);
                assert(v@ =~= similar_candidates(self.records@, qb));
            }
            v
        } else {
            let v: Vec<(usize, Score)> = Vec::new();
            proof {
                assert(v@ =~= query_candidates(self.records@, qb));
            }
            v
        };
        proof {
            assert(cands@ == query_candidates(self.records@, qb));
            if qb.len() < 3 {
                lemma_prefix_indices_shape(self.records@, qb);
                assert forall|k: int, l: int|
                    0 <= k < l < cands@.len() implies (#[trigger] cands@[k]).0 != (
                #[trigger] cands@[l]).0 by {
                    assert(prefix_match_indices(self.records@, qb)[k] < prefix_match_indices(
                        self.records@,
                        qb,
                    )[l]);
                }
                assert(dens_uniform(cands@));
                assert(forall|k: int|
                    0 <= k < cands@.len() ==> (#[trigger] cands@[k]).0 < self.records@.len());
            } else if qb.len() <= NAME_LIMIT {
                lemma_similar_indices_shape(self.records@, qb);
                assert forall|k: int, l: int|
                    0 <= k < l < cands@.len() implies (#[trigger] cands@[k]).0 != (
                #[trigger] cands@[l]).0 by {
                    assert(similar_match_indices(self.records@, qb)[k] < similar_match_indices(
                        self.records@,
                        qb,
                    )[l]);
                }
                assert forall|k: int, l: int|
                    0 <= k < cands@.len() && 0 <= l < cands@.len() implies (((
                #[trigger] cands@[k]).1.den == 0) == (((#[trigger] cands@[l]).1.den == 0))) by {
                    assert(cands@[k].1.exceeds_tenth());
                    assert(cands@[l].1.exceeds_tenth());
                }
                assert(forall|k: int|
                    0 <= k < cands@.len() ==> (#[trigger] cands@[k]).0 < self.records@.len());
            }
        }
        let sorted = sort_candidates(cands);
        proof {
            assert forall|k: int| 0 <= k < sorted@.len() implies (#[trigger] sorted@[k]).0
                < self.records@.len() by {
                assert(sorted@.contains(sorted@[k]));
                assert(cands@.contains(sorted@[k]));
                let m = choose|m: int| 0 <= m < cands@.len() && cands@[m] == sorted@[k];
            }
        }
        let top = take_within(&sorted, within);
        let ghost wv = mask_view(within);
        let ghost picked = capped(kept_within(sorted@, wv));
        proof {
            lemma_kept_props(sorted@, wv);
            assert forall|k: int| 0 <= k < top@.len() implies mask_keep(#[trigger] top@[k], wv)
                && (#[trigger] top@[k]).0 < self.records@.len() by {
                assert(top@[k] == kept_within(sorted@, wv)[k]);
                assert(sorted@.contains(kept_within(sorted@, wv)[k]));
                let m = choose|m: int|
                    0 <= m < sorted@.len() && sorted@[m] == kept_within(sorted@, wv)[k];
            }
        }
        let mut out_vec: Vec<Suggestion> = Vec::new();
        let mut k: usize = 0;
        while k < top.len()
            invariant
                0 <= k <= top@.len(),
                n == self.records@.len(),
                forall|m: int|
                    0 <= m < top@.len() ==> mask_keep(#[trigger] top@[m], wv) && (
                    #[trigger] top@[m]).0 < n,
                out_vec@.len() == k,
                forall|m: int|
                    0 <= m < k ==> {
                        let c = #[trigger] top@[m];
                        &&& out_vec@[m].index == c.0
                        &&& out_vec@[m].score == c.1
                        &&& out_vec@[m].population == self.records@[c.0 as int].population
                        &&& out_vec@[m].name@ == self.records@[c.0 as int].name@ + ", "@
                            + self.records@[c.0 as int].country@
                    },
            decreases top@.len() - k,
        {
            let c = top[k];
            let s = Suggestion::new(&self.records[c.0], c.1, c.0);
            out_vec.push(s);
            k += 1;
        }
        proof {
            assert(top@ == picked);
            assert(reply_matches(self.records@, picked, out_vec@));
            assert(top@.len() <= MAX_RESULTS);
            assert(sorted@.to_multiset() == query_candidates(self.records@, qb).to_multiset()
                && sorted_ranked(sorted@) && reply_matches(self.records@, picked, out_vec@));
            match within {
                Option::Some(w) => {
                    assert forall|m: int| 0 <= m < out_vec@.len() implies (
                    #[trigger] out_vec@[m]).index < w@.len() && w@[out_vec@[m].index as int] by {
                        assert(mask_keep(top@[m], wv));
                        assert(out_vec@[m].index == top@[m].0);
                    }
                },
                Option::None => {},
            }
        }
        Result::Ok(Suggestions { suggestions: out_vec })
    }
}

} // verus!
