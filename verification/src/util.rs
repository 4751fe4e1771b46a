//! The two scoring strategies over the record store: bigram similarity
//! (Dice coefficient) for longer queries and population-weighted prefix
//! matching for short ones.
//!
//! Similarity is computed over raw UTF-8 bytes, not decoded characters:
//! two-byte windows may straddle a multi-byte character.  This is the
//! intended matching unit — character-accurate windows would change the
//! ranking of accented names.

use vstd::prelude::*;
use vstd::string::StringSliceAdditionalSpecFns;
use crate::models::LocationRecord;
use crate::models::NAME_LIMIT;
use crate::score::Score;
use crate::text::bytes_of;
use crate::text::bytes_starts_with;

verus! {

/// Number of two-byte windows of `b`.
pub open spec fn bigram_count(b: Seq<u8>) -> int {
    if b.len() >= 2 {
        b.len() - 1
    } else {
        0
    }
}

/// The window starting at `i`.
pub open spec fn bigram_at(b: Seq<u8>, i: int) -> (u8, u8)
    recommends
        0 <= i < bigram_count(b),
{
    (b[i], b[i + 1])
}

/// The least window position of `b2` at or after `j` that is not yet in
/// `used` and whose window equals `g`, if any.
pub open spec fn first_free_match(b2: Seq<u8>, used: Seq<usize>, g: (u8, u8), j: int) -> Option<
    int,
>
    decreases bigram_count(b2) - j,
{
    if j < 0 || j >= bigram_count(b2) {
        None
    } else if !used.contains(j as usize) && bigram_at(b2, j) == g {
        Some(j)
    } else {
        first_free_match(b2, used, g, j + 1)
    }
}

/// The window positions of `b2` consumed after the first `k` windows of
/// `b1` have been offered in order: each window of `b1` claims the least
/// still-free equal window of `b2`, or nothing.
pub open spec fn greedy_used(b1: Seq<u8>, b2: Seq<u8>, k: int) -> Seq<usize>
    decreases k,
{
    if k <= 0 {
        Seq::empty()
    } else {
        let prev = greedy_used(b1, b2, k - 1);
        match first_free_match(b2, prev, bigram_at(b1, k - 1), 0) {
            Some(j) => prev.push(j as usize),
            None => prev,
        }
    }
}

/// Twice the number of matched window pairs.
pub open spec fn dice_numerator(b1: Seq<u8>, b2: Seq<u8>) -> int {
    2 * (greedy_used(b1, b2, bigram_count(b1)).len() as int)
}

/// The divisor `len(b1) + len(b2) - 2`: the last byte of each side has no
/// window of its own.
pub open spec fn dice_denominator(b1: Seq<u8>, b2: Seq<u8>) -> int {
    b1.len() + b2.len() - 2
}

/// A duplicate-free sequence of positions below `n` has at most `n`
/// elements.
proof fn lemma_distinct_positions_bound(s: Seq<usize>, n: int)
    requires
        s.no_duplicates(),
        0 <= n,
        forall|m: int| 0 <= m < s.len() ==> (s[m] as int) < n,
    ensures
        s.len() <= n,
{
    let f = |v: usize| v as int;
    assert(vstd::relations::injective(f)) by {
        assert forall|x: usize, y: usize| #[trigger] f(x) == #[trigger] f(y) implies x == y by {}
    }
    let si = s.map_values(f);
    s.lemma_no_duplicates_injective(f);
    si.unique_seq_to_set();
    vstd::set_lib::lemma_int_range(0, n);
    assert(si.to_set().subset_of(vstd::set_lib::set_int_range(0, n))) by {
        assert forall|x: int| si.to_set().contains(x) implies vstd::set_lib::set_int_range(
            0,
            n,
        ).contains(x) by {
            let idx = choose|idx: int| 0 <= idx < si.len() && si[idx] == x;
        }
    }
    vstd::set_lib::lemma_len_subset(si.to_set(), vstd::set_lib::set_int_range(0, n));
}

/// True when some position of `v` holds `x`.
fn position_seen(v: &Vec<usize>, x: usize) -> (r: bool)
    ensures
        r == v@.contains(x),
{
    let mut k: usize = 0;
    while k < v.len()
        invariant
            0 <= k <= v@.len(),
            forall|m: int| 0 <= m < k ==> v@[m] != x,
        decreases v@.len() - k,
    {
        if v[k] == x {
            return true;
        }
        k += 1;
    }
    false
}

/// Dice similarity of two strings, over their UTF-8 bytes: the result is
/// the exact ratio `dice_numerator / dice_denominator`.  When both inputs
/// have fewer than two bytes together there is no divisor to form, so such
/// inputs are excluded.
pub fn dice_coefficient(s1: &str, s2: &str) -> (r: Score)
    requires
        s1.spec_bytes().len() + s2.spec_bytes().len() >= 2,
        s1.spec_bytes().len() + s2.spec_bytes().len() <= usize::MAX,
    ensures
        r.num == dice_numerator(s1.spec_bytes(), s2.spec_bytes()),
        r.den == dice_denominator(s1.spec_bytes(), s2.spec_bytes()),
{
    let b1 = s1.as_bytes();
    let b2 = s2.as_bytes();
    let n1 = b1.len();
    let n2 = b2.len();
    let nb1: usize = if n1 >= 2 {
        n1 - 1
    } else {
        0
    };
    let nb2: usize = if n2 >= 2 {
        n2 - 1
    } else {
        0
    };
    let mut past: Vec<usize> = Vec::new();
    let mut i1: usize = 0;
    while i1 < nb1
        invariant
            0 <= i1 <= nb1,
            nb1 == bigram_count(b1@),
            nb2 == bigram_count(b2@),
            b1@ == s1.spec_bytes(),
            b2@ == s2.spec_bytes(),
            past@ == greedy_used(b1@, b2@, i1 as int),
            past@.len() <= i1,
            past@.no_duplicates(),
            forall|m: int| 0 <= m < past@.len() ==> past@[m] < nb2,
        decreases nb1 - i1,
    {
        let g0 = b1[i1];
        let g1 = b1[i1 + 1];
        let ghost g = bigram_at(b1@, i1 as int);
        let mut j: usize = 0;
        let mut found = false;
        while j < nb2 && !found
            invariant
                0 <= j <= nb2,
                nb2 == bigram_count(b2@),
                g0 == g.0,
                g1 == g.1,
                !found ==> first_free_match(b2@, past@, g, 0) == first_free_match(
                    b2@,
                    past@,
                    g,
                    j as int,
                ),
                found ==> j < nb2 && first_free_match(b2@, past@, g, 0) == Some(j as int)
                    && !past@.contains(j),
            decreases nb2 - j, (if found { 0int } else { 1int }),
    {
            if !position_seen(&past, j) && b2[j] == g0 && b2[j + 1] == g1 {
                found = true;
            } else {
                j += 1;
            }
        }
        proof {
            assert(greedy_used(b1@, b2@, i1 as int + 1) == (match first_free_match(
                b2@,
                past@,
                bigram_at(b1@, i1 as int),
                0,
            ) {
                Some(jj) => past@.push(jj as usize),
                None => past@,
            }));
        }
        if found {
            past.push(j);
        }
        i1 += 1;
    }
    proof {
        lemma_distinct_positions_bound(past@, nb2 as int);
    }
    let num: u64 = 2 * (past.len() as u64);
    let den: u64 = ((n1 + n2) - 2) as u64;
    Score { num, den }
}

// ---------------------------------------------------------------------
// Laws of the similarity scorer
// ---------------------------------------------------------------------
/// Scanning from the start reaches `j` when every earlier position is
/// already consumed.
proof fn lemma_ffm_skip_used(b2: Seq<u8>, used: Seq<usize>, g: (u8, u8), j: int)
    requires
        0 <= j <= bigram_count(b2),
        forall|l: int| 0 <= l < j ==> used.contains(#[trigger] (l as usize)),
    ensures
        first_free_match(b2, used, g, 0) == first_free_match(b2, used, g, j),
    decreases j,
{
    if j > 0 {
        lemma_ffm_skip_used(b2, used, g, j - 1);
        assert(used.contains((j - 1) as usize));
    }
}

/// Matching a byte sequence against itself consumes every window: the
/// first `k` windows claim exactly positions `0 .. k`.
proof fn lemma_greedy_self(b: Seq<u8>, k: int)
    requires
        b.len() <= usize::MAX,
        0 <= k <= bigram_count(b),
    ensures
        greedy_used(b, b, k) =~= Seq::new(k as nat, |i: int| i as usize),
    decreases k,
{
    if k > 0 {
        lemma_greedy_self(b, k - 1);
        let prev = greedy_used(b, b, k - 1);
        assert forall|l: int| 0 <= l < k - 1 implies prev.contains(#[trigger] (l as usize)) by {
            assert(prev[l] == l as usize);
        }
        lemma_ffm_skip_used(b, prev, bigram_at(b, k - 1), k - 1);
        assert(!prev.contains((k - 1) as usize)) by {
            assert forall|m: int| 0 <= m < prev.len() implies #[trigger] prev[m] != (k - 1)
                as usize by {
                assert(prev[m] == m as usize);
                assert(m as usize as int == m);
                assert((k - 1) as usize as int == k - 1);
            }
        }
        assert(first_free_match(b, prev, bigram_at(b, k - 1), k - 1) == Some(k - 1));
    }
}

/// The first half of the identity law: a non-degenerate string scores
/// exactly one against itself — the numerator equals the denominator.
pub proof fn lemma_dice_self(b: Seq<u8>)
    requires
        2 <= b.len() <= usize::MAX,
    ensures
        dice_numerator(b, b) == dice_denominator(b, b),
{
    lemma_greedy_self(b, bigram_count(b));
}

/// When no window of `b2` equals `g`, the scan finds nothing.
proof fn lemma_ffm_no_match(b2: Seq<u8>, used: Seq<usize>, g: (u8, u8), j: int)
    requires
        0 <= j <= bigram_count(b2),
        forall|l: int| 0 <= l < bigram_count(b2) ==> bigram_at(b2, l) != g,
    ensures
        first_free_match(b2, used, g, j) is None,
    decreases bigram_count(b2) - j,
{
    if j < bigram_count(b2) {
        lemma_ffm_no_match(b2, used, g, j + 1);
    }
}

/// With no shared window at all, nothing is ever consumed.
proof fn lemma_greedy_disjoint(b1: Seq<u8>, b2: Seq<u8>, k: int)
    requires
        0 <= k <= bigram_count(b1),
        forall|i: int, l: int|
            0 <= i < bigram_count(b1) && 0 <= l < bigram_count(b2) ==> bigram_at(b1, i)
                != bigram_at(b2, l),
    ensures
        greedy_used(b1, b2, k) =~= Seq::<usize>::empty(),
    decreases k,
{
    if k > 0 {
        lemma_greedy_disjoint(b1, b2, k - 1);
        lemma_ffm_no_match(b2, greedy_used(b1, b2, k - 1), bigram_at(b1, k - 1), 0);
    }
}

/// The second half of the identity law: strings that share no window
/// score zero.
pub proof fn lemma_dice_disjoint(b1: Seq<u8>, b2: Seq<u8>)
    requires
        forall|i: int, l: int|
            0 <= i < bigram_count(b1) && 0 <= l < bigram_count(b2) ==> bigram_at(b1, i)
                != bigram_at(b2, l),
    ensures
        dice_numerator(b1, b2) == 0,
{
    lemma_greedy_disjoint(b1, b2, bigram_count(b1));
}

/// What the scan returns is a free position at or after where it
/// started, bearing the window it looked for.
proof fn lemma_ffm_some_props(b2: Seq<u8>, used: Seq<usize>, g: (u8, u8), j0: int)
    requires
        0 <= j0,
    ensures
        match first_free_match(b2, used, g, j0) {
            Some(j) => j0 <= j < bigram_count(b2) && !used.contains(j as usize) && bigram_at(
                b2,
                j,
            ) == g,
            None => true,
        },
    decreases (if j0 < bigram_count(b2) {
        bigram_count(b2) - j0
    } else {
        0int
    }),
{
    if j0 < bigram_count(b2) {
        lemma_ffm_some_props(b2, used, g, j0 + 1);
    }
}

/// The consumed positions are distinct windows of `b2`, at most one per
/// offered window of `b1`.
proof fn lemma_greedy_props(b1: Seq<u8>, b2: Seq<u8>, k: int)
    requires
        0 <= k,
        b2.len() <= usize::MAX,
    ensures
        greedy_used(b1, b2, k).len() <= k,
        greedy_used(b1, b2, k).no_duplicates(),
        forall|m: int|
            0 <= m < greedy_used(b1, b2, k).len() ==> (#[trigger] greedy_used(b1, b2, k)[m] as int)
                < bigram_count(b2),
    decreases k,
{
    if k > 0 {
        lemma_greedy_props(b1, b2, k - 1);
        let prev = greedy_used(b1, b2, k - 1);
        lemma_ffm_some_props(b2, prev, bigram_at(b1, k - 1), 0);
        match first_free_match(b2, prev, bigram_at(b1, k - 1), 0) {
            Some(j) => {
                assert(greedy_used(b1, b2, k) == prev.push(j as usize));
                assert(j as usize as int == j);
            },
            None => {},
        }
    }
}

/// The score never leaves the unit interval: the numerator is
/// non-negative and never exceeds the denominator.
pub proof fn lemma_dice_bounds(b1: Seq<u8>, b2: Seq<u8>)
    requires
        b1.len() + b2.len() >= 2,
        b1.len() <= usize::MAX,
        b2.len() <= usize::MAX,
    ensures
        0 <= dice_numerator(b1, b2) <= dice_denominator(b1, b2),
{
    let g = greedy_used(b1, b2, bigram_count(b1));
    lemma_greedy_props(b1, b2, bigram_count(b1));
    lemma_distinct_positions_bound(g, bigram_count(b2));
}

// ---------------------------------------------------------------------
// Prefix scoring
// ---------------------------------------------------------------------
/// The query is a byte prefix of the record's lowercased name or of its
/// lowercased ASCII variant.
pub open spec fn prefix_match(rec: LocationRecord, q: Seq<u8>) -> bool {
    q.is_prefix_of(bytes_of(rec.name_lower@)) || q.is_prefix_of(bytes_of(rec.name_ascii_lower@))
}

/// Combined population of the whole store.
pub open spec fn total_population(recs: Seq<LocationRecord>) -> int
    decreases recs.len(),
{
    if recs.len() == 0 {
        0
    } else {
        total_population(recs.drop_last()) + recs.last().population
    }
}

/// Indices of the records the prefix query selects, in record order.
pub open spec fn prefix_match_indices(recs: Seq<LocationRecord>, q: Seq<u8>) -> Seq<int>
    decreases recs.len(),
{
    if recs.len() == 0 {
        Seq::empty()
    } else {
        let rest = prefix_match_indices(recs.drop_last(), q);
        if prefix_match(recs.last(), q) {
            rest.push(recs.len() - 1)
        } else {
            rest
        }
    }
}

/// Combined population of the selected records: the common score
/// denominator of the prefix strategy.
pub open spec fn prefix_total(recs: Seq<LocationRecord>, q: Seq<u8>) -> int
    decreases recs.len(),
{
    if recs.len() == 0 {
        0
    } else {
        prefix_total(recs.drop_last(), q) + if prefix_match(recs.last(), q) {
            recs.last().population as int
        } else {
            0
        }
    }
}

/// The selected indices are strictly increasing positions of the store.
pub proof fn lemma_prefix_indices_shape(recs: Seq<LocationRecord>, q: Seq<u8>)
    ensures
        forall|k: int|
            0 <= k < prefix_match_indices(recs, q).len() ==> 0 <= #[trigger] prefix_match_indices(
                recs,
                q,
            )[k] < recs.len(),
        forall|k: int, l: int|
            0 <= k < l < prefix_match_indices(recs, q).len() ==> prefix_match_indices(recs, q)[k]
                < prefix_match_indices(recs, q)[l],
    decreases recs.len(),
{
    if recs.len() > 0 {
        lemma_prefix_indices_shape(recs.drop_last(), q);
        let rest = prefix_match_indices(recs.drop_last(), q);
        let idxs = prefix_match_indices(recs, q);
        if prefix_match(recs.last(), q) {
            assert(idxs == rest.push(recs.len() - 1));
            assert forall|k: int| 0 <= k < idxs.len() implies 0 <= #[trigger] idxs[k]
                < recs.len() by {
                if k < rest.len() {
                    assert(idxs[k] == rest[k]);
                }
            }
            assert forall|k: int, l: int| 0 <= k < l < idxs.len() implies idxs[k] < idxs[l] by {
                if l < rest.len() {
                    assert(idxs[k] == rest[k] && idxs[l] == rest[l]);
                } else {
                    assert(idxs[k] == rest[k] && idxs[l] == recs.len() - 1);
                }
            }
        } else {
            assert(idxs == rest);
        }
    }
}

/// A record's index is selected exactly when the record matches.
pub proof fn lemma_prefix_matches_exactly(recs: Seq<LocationRecord>, q: Seq<u8>, i: int)
    requires
        0 <= i < recs.len(),
    ensures
        prefix_match_indices(recs, q).contains(i) <==> prefix_match(recs[i], q),
    decreases recs.len(),
{
    let idxs = prefix_match_indices(recs, q);
    let rest = prefix_match_indices(recs.drop_last(), q);
    if i == recs.len() - 1 {
        lemma_prefix_indices_shape(recs.drop_last(), q);
        if prefix_match(recs[i], q) {
            assert(idxs[idxs.len() - 1] == i);
        } else {
            assert(forall|k: int| 0 <= k < rest.len() ==> rest[k] < i);
        }
    } else {
        lemma_prefix_matches_exactly(recs.drop_last(), q, i);
        assert(recs.drop_last()[i] == recs[i]);
        if prefix_match(recs.last(), q) {
            assert(idxs == rest.push(recs.len() - 1));
            if rest.contains(i) {
                let k = choose|k: int| 0 <= k < rest.len() && rest[k] == i;
                assert(idxs[k] == i);
                assert(idxs.contains(i));
            }
            if idxs.contains(i) {
                let k = choose|k: int| 0 <= k < idxs.len() && idxs[k] == i;
                assert(k < idxs.len() - 1);
                assert(rest[k] == i);
                assert(rest.contains(i));
            }
        } else {
            assert(idxs == rest);
        }
    }
}

/// Population totals are non-negative and the selection never exceeds the
/// whole store.
pub proof fn lemma_prefix_total_bounds(recs: Seq<LocationRecord>, q: Seq<u8>)
    ensures
        0 <= prefix_total(recs, q) <= total_population(recs),
    decreases recs.len(),
{
    if recs.len() > 0 {
        lemma_prefix_total_bounds(recs.drop_last(), q);
    }
}

/// Taking a front part of the store can only lower the combined
/// population.
pub proof fn lemma_total_take_le(recs: Seq<LocationRecord>, i: int)
    requires
        0 <= i <= recs.len(),
    ensures
        total_population(recs.take(i)) <= total_population(recs),
    decreases recs.len(),
{
    if i == recs.len() {
        assert(recs.take(i) =~= recs);
    } else {
        assert(recs.take(i) =~= recs.drop_last().take(i));
        lemma_total_take_le(recs.drop_last(), i);
    }
}

/// Population-weighted prefix scoring: selects every record one of whose
/// match targets starts with `q`, and scores each at its share of the
/// selection's combined population.  The scores of one result set add up
/// to exactly one (see `lemma_prefix_scores_sum`).
pub fn find_prefix(q: &str, locations: &Vec<LocationRecord>) -> (r: Vec<(usize, Score)>)
    requires
        total_population(locations@) <= u64::MAX,
    ensures
        ({
            let idxs = prefix_match_indices(locations@, q.spec_bytes());
            let total = prefix_total(locations@, q.spec_bytes());
            &&& r@.len() == idxs.len()
            &&& forall|k: int|
                0 <= k < r@.len() ==> (#[trigger] r@[k]).0 as int == idxs[k] && r@[k].1.num as int
                    == locations@[idxs[k]].population as int && r@[k].1.den as int == total
        }),
{
    let ghost qb = q.spec_bytes();
    let qbytes = q.as_bytes();
    let n = locations.len();
    let mut ms: Vec<usize> = Vec::new();
    let mut tot: u64 = 0;
    let mut i: usize = 0;
    while i < n
        invariant
            0 <= i <= n,
            n == locations@.len(),
            qbytes@ == qb,
            total_population(locations@) <= u64::MAX,
            ms@.len() == prefix_match_indices(locations@.take(i as int), qb).len(),
            forall|m: int|
                0 <= m < ms@.len() ==> (#[trigger] ms@[m]) as int == prefix_match_indices(
                    locations@.take(i as int),
                    qb,
                )[m],
            forall|m: int| 0 <= m < ms@.len() ==> (#[trigger] ms@[m]) < n,
            tot as int == prefix_total(locations@.take(i as int), qb),
        decreases n - i,
    {
        proof {
            assert(locations@.take(i as int + 1).drop_last() =~= locations@.take(i as int));
            assert(locations@.take(i as int + 1).last() == locations@[i as int]);
        }
        let rec = &locations[i];
        let hit = bytes_starts_with(rec.name_lower.as_str().as_bytes(), qbytes)
            || bytes_starts_with(rec.name_ascii_lower.as_str().as_bytes(), qbytes);
        if hit {
            proof {
                lemma_prefix_total_bounds(locations@.take(i as int + 1), qb);
                lemma_total_take_le(locations@, i as int + 1);
            }
            tot = tot + rec.population;
            ms.push(i);
        }
        i += 1;
    }
    proof {
        assert(locations@.take(n as int) =~= locations@);
    }
    let mut r: Vec<(usize, Score)> = Vec::new();
    let mut k: usize = 0;
    while k < ms.len()
        invariant
            0 <= k <= ms@.len(),
            n == locations@.len(),
            ms@.len() == prefix_match_indices(locations@, qb).len(),
            forall|m: int|
                0 <= m < ms@.len() ==> (#[trigger] ms@[m]) as int == prefix_match_indices(
                    locations@,
                    qb,
                )[m],
            forall|m: int| 0 <= m < ms@.len() ==> (#[trigger] ms@[m]) < n,
            tot as int == prefix_total(locations@, qb),
            r@.len() == k,
            forall|m: int|
                0 <= m < k ==> (#[trigger] r@[m]).0 as int == prefix_match_indices(locations@, qb)[m]
                    && r@[m].1.num as int == locations@[prefix_match_indices(locations@, qb)[m]].population as int
                    && r@[m].1.den as int == prefix_total(locations@, qb),
        decreases ms@.len() - k,
    {
        let idx = ms[k];
        let sc = Score { num: locations[idx].population, den: tot };
        r.push((idx, sc));
        k += 1;
    }
    r
}

// ---------------------------------------------------------------------
// Similarity matching
// ---------------------------------------------------------------------
/// The better of the record's two dice ratios against `q`, as an exact
/// (numerator, denominator) pair.  A degenerate divisor loses to any
/// defined ratio, as an undefined score does.
pub open spec fn similarity_ratio(rec: LocationRecord, q: Seq<u8>) -> (int, int) {
    let n1 = dice_numerator(bytes_of(rec.name_lower@), q);
    let d1 = dice_denominator(bytes_of(rec.name_lower@), q);
    let n2 = dice_numerator(bytes_of(rec.name_ascii_lower@), q);
    let d2 = dice_denominator(bytes_of(rec.name_ascii_lower@), q);
    if d1 <= 0 {
        (n2, d2)
    } else if d2 <= 0 {
        (n1, d1)
    } else if n1 * d2 >= n2 * d1 {
        (n1, d1)
    } else {
        (n2, d2)
    }
}

/// A similarity candidate survives only with a defined score strictly
/// above one tenth.
pub open spec fn similar_included(rec: LocationRecord, q: Seq<u8>) -> bool {
    let r = similarity_ratio(rec, q);
    r.1 > 0 && 10 * r.0 > r.1
}

/// Indices of the records the similarity query keeps, in record order.
pub open spec fn similar_match_indices(recs: Seq<LocationRecord>, q: Seq<u8>) -> Seq<int>
    decreases recs.len(),
{
    if recs.len() == 0 {
        Seq::empty()
    } else {
        let rest = similar_match_indices(recs.drop_last(), q);
        if similar_included(recs.last(), q) {
            rest.push(recs.len() - 1)
        } else {
            rest
        }
    }
}

/// The kept indices are strictly increasing positions of the store.
pub proof fn lemma_similar_indices_shape(recs: Seq<LocationRecord>, q: Seq<u8>)
    ensures
        forall|k: int|
            0 <= k < similar_match_indices(recs, q).len() ==> 0 <= #[trigger] similar_match_indices(
                recs,
                q,
            )[k] < recs.len(),
        forall|k: int, l: int|
            0 <= k < l < similar_match_indices(recs, q).len() ==> similar_match_indices(recs, q)[k]
                < similar_match_indices(recs, q)[l],
    decreases recs.len(),
{
    if recs.len() > 0 {
        lemma_similar_indices_shape(recs.drop_last(), q);
        let rest = similar_match_indices(recs.drop_last(), q);
        let idxs = similar_match_indices(recs, q);
        if similar_included(recs.last(), q) {
            assert(idxs == rest.push(recs.len() - 1));
            assert forall|k: int| 0 <= k < idxs.len() implies 0 <= #[trigger] idxs[k]
                < recs.len() by {
                if k < rest.len() {
                    assert(idxs[k] == rest[k]);
                }
            }
            assert forall|k: int, l: int| 0 <= k < l < idxs.len() implies idxs[k] < idxs[l] by {
                if l < rest.len() {
                    assert(idxs[k] == rest[k] && idxs[l] == rest[l]);
                } else {
                    assert(idxs[k] == rest[k] && idxs[l] == recs.len() - 1);
                }
            }
        } else {
            assert(idxs == rest);
        }
    }
}

/// Similarity scoring: every record whose better dice ratio against `q`
/// is strictly above one tenth, with that exact ratio as its score.
/// Records scoring at or below the cut never appear.  The scan visits
/// every record: a fuzzy query need not occur in any name as a
/// substring, so no substring lookup can narrow the candidates.
pub fn find_similar(q: &str, locations: &Vec<LocationRecord>) -> (r: Vec<(usize, Score)>)
    requires
        2 <= q.spec_bytes().len() <= NAME_LIMIT,
        forall|i: int| 0 <= i < locations@.len() ==> (#[trigger] locations@[i]).wf(),
    ensures
        ({
            let idxs = similar_match_indices(locations@, q.spec_bytes());
            &&& r@.len() == idxs.len()
            &&& forall|k: int|
                0 <= k < r@.len() ==> (#[trigger] r@[k]).0 as int == idxs[k] && r@[k].1.num as int
                    == similarity_ratio(locations@[idxs[k]], q.spec_bytes()).0 && r@[k].1.den as int
                    == similarity_ratio(locations@[idxs[k]], q.spec_bytes()).1
        }),
        forall|k: int| 0 <= k < r@.len() ==> (#[trigger] r@[k]).1.exceeds_tenth(),
{
    let ghost qb = q.spec_bytes();
    let n = locations.len();
    let mut r: Vec<(usize, Score)> = Vec::new();
    let mut i: usize = 0;
    while i < n
        invariant
            0 <= i <= n,
            n == locations@.len(),
            2 <= qb.len() <= NAME_LIMIT,
            qb == q.spec_bytes(),
            forall|m: int| 0 <= m < locations@.len() ==> (#[trigger] locations@[m]).wf(),
            r@.len() == similar_match_indices(locations@.take(i as int), qb).len(),
            forall|k: int|
                0 <= k < r@.len() ==> (#[trigger] r@[k]).0 as int == similar_match_indices(
                    locations@.take(i as int),
                    qb,
                )[k] && r@[k].1.num as int == similarity_ratio(
                    locations@[similar_match_indices(locations@.take(i as int), qb)[k]],
                    qb,
                ).0 && r@[k].1.den as int == similarity_ratio(
                    locations@[similar_match_indices(locations@.take(i as int), qb)[k]],
                    qb,
                ).1,
            forall|k: int| 0 <= k < r@.len() ==> (#[trigger] r@[k]).1.exceeds_tenth(),
        decreases n - i,
    {
        proof {
            assert(locations@.take(i as int + 1).drop_last() =~= locations@.take(i as int));
            assert(locations@.take(i as int + 1).last() == locations@[i as int]);
            lemma_similar_indices_shape(locations@.take(i as int), qb);
        }
        let rec = &locations[i];
        let s1 = dice_coefficient(rec.name_lower.as_str(), q);
        let s2 = dice_coefficient(rec.name_ascii_lower.as_str(), q);
        let sc = s1.max_with(s2);
        if sc.above_tenth() {
            r.push((i, sc));
        }
        i += 1;
    }
    proof {
        assert(locations@.take(n as int) =~= locations@);
    }
    r
}

// ---------------------------------------------------------------------
// Laws of the prefix scorer
// ---------------------------------------------------------------------
/// Population of the records at the given store positions.
pub open spec fn population_at(recs: Seq<LocationRecord>, idxs: Seq<int>) -> int
    decreases idxs.len(),
{
    if idxs.len() == 0 {
        0
    } else {
        population_at(recs, idxs.drop_last()) + recs[idxs.last()].population
    }
}

/// Positions below the last record sum the same with or without it.
proof fn lemma_population_at_stable(recs: Seq<LocationRecord>, idxs: Seq<int>)
    requires
        recs.len() > 0,
        forall|k: int| 0 <= k < idxs.len() ==> 0 <= #[trigger] idxs[k] < recs.len() - 1,
    ensures
        population_at(recs, idxs) == population_at(recs.drop_last(), idxs),
    decreases idxs.len(),
{
    if idxs.len() > 0 {
        lemma_population_at_stable(recs, idxs.drop_last());
    }
}

/// The prefix scores of one result set add up to exactly one: their
/// numerators — the populations at the selected positions — sum to the
/// common denominator.
pub proof fn lemma_prefix_scores_sum(recs: Seq<LocationRecord>, q: Seq<u8>)
    ensures
        population_at(recs, prefix_match_indices(recs, q)) == prefix_total(recs, q),
    decreases recs.len(),
{
    if recs.len() > 0 {
        lemma_prefix_scores_sum(recs.drop_last(), q);
        lemma_prefix_indices_shape(recs.drop_last(), q);
        let rest = prefix_match_indices(recs.drop_last(), q);
        lemma_population_at_stable(recs, rest);
        if prefix_match(recs.last(), q) {
            let idxs = prefix_match_indices(recs, q);
            assert(idxs.drop_last() =~= rest);
        }
    }
}

} // verus!
