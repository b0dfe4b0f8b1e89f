//! Bounded-mismatch nearest-neighbour correction of a barcode against its
//! candidates, with `N` read as a wildcard and ties rejected.
use vstd::prelude::*;
use crate::text::chars_of;

verus! {

/// Two characters disagree, neither being the wildcard `N`.
pub open spec fn mismatch_at(a: char, b: char) -> bool {
    a != b && a != 'N' && b != 'N'
}

/// Mismatching positions among the first `n` positions of `q` and `c`.
pub open spec fn mismatches_upto(q: Seq<char>, c: Seq<char>, n: int) -> nat
    decreases n,
{
    if n <= 0 {
        0
    } else {
        mismatches_upto(q, c, n - 1) + if mismatch_at(q[n - 1], c[n - 1]) {
            1nat
        } else {
            0nat
        }
    }
}

/// Hamming distance over the positions that `q` and `c` share, `N` matching
/// anything.
pub open spec fn hamming(q: Seq<char>, c: Seq<char>) -> nat {
    mismatches_upto(q, c, if q.len() <= c.len() { q.len() as int } else { c.len() as int })
}

/// The views of a sequence of strings.
pub open spec fn views(v: Seq<String>) -> Seq<Seq<char>> {
    v.map_values(|s: String| s@)
}

/// Pushing a string pushes its view.
pub proof fn lemma_views_push(v: Seq<String>, x: String)
    ensures
        views(v.push(x)) == views(v).push(x@),
{
    assert(views(v.push(x)) =~= views(v).push(x@));
}

/// Candidate `i` lies within the budget and is strictly closer to `q` than
/// every other candidate.
pub open spec fn is_unique_best(q: Seq<char>, cs: Seq<Seq<char>>, m: nat, i: int) -> bool {
    &&& 0 <= i < cs.len()
    &&& hamming(q, cs[i]) <= m
    &&& forall|j: int| 0 <= j < cs.len() && j != i ==> hamming(q, cs[j]) > hamming(q, cs[i])
}

/// What the corrector owes: the unique best candidate, or nothing.
pub open spec fn correction_of(q: Seq<char>, cs: Seq<Seq<char>>, m: nat) -> Option<Seq<char>> {
    if exists|i: int| is_unique_best(q, cs, m, i) {
        Some(cs[choose|i: int| is_unique_best(q, cs, m, i)])
    } else {
        None
    }
}

/// Counts mismatches of `c` against `q`, stopping once `limit` is exceeded.
fn count_mismatches(q: &Vec<char>, c: &Vec<char>, limit: u64) -> (r: u64)
    requires
        limit < u64::MAX,
    ensures
        hamming(q@, c@) <= limit ==> r == hamming(q@, c@),
        hamming(q@, c@) > limit ==> r == limit + 1,
{
    let n: usize = if q.len() <= c.len() { q.len() } else { c.len() };
    let mut count: u64 = 0;
    let mut i: usize = 0;
    while i < n
        invariant
            n as int == (if q@.len() <= c@.len() { q@.len() as int } else { c@.len() as int }),
            i <= n,
            count == mismatches_upto(q@, c@, i as int),
            count <= limit,
            limit < u64::MAX,
        decreases n - i,
    {
        if q[i] != c[i] && q[i] != 'N' && c[i] != 'N' {
            count = count + 1;
        }
        i = i + 1;
        if count > limit {
            proof {
                lemma_mismatches_monotone(q@, c@, i as int, n as int);
            }
            return count;
        }
    }
    count
}

/// Counting over a longer prefix never counts fewer mismatches.
proof fn lemma_mismatches_monotone(q: Seq<char>, c: Seq<char>, a: int, b: int)
    requires
        0 <= a <= b,
    ensures
        mismatches_upto(q, c, a) <= mismatches_upto(q, c, b),
    decreases b - a,
{
    if a < b {
        lemma_mismatches_monotone(q, c, a, b - 1);
    }
}

/// Counts agree when the positions agree on which of them mismatch.
proof fn lemma_mismatches_agree(q1: Seq<char>, c1: Seq<char>, q2: Seq<char>, c2: Seq<char>, n: int)
    requires
        forall|i: int| 0 <= i < n ==> mismatch_at(q1[i], c1[i]) == mismatch_at(q2[i], c2[i]),
    ensures
        mismatches_upto(q1, c1, n) == mismatches_upto(q2, c2, n),
    decreases n,
{
    if n > 0 {
        lemma_mismatches_agree(q1, c1, q2, c2, n - 1);
    }
}

/// An `N` on either side counts as a match: the distance is the same as if
/// that position held the other side's character.
pub proof fn lemma_wildcard_matches(q: Seq<char>, c: Seq<char>, k: int)
    requires
        0 <= k < q.len(),
        k < c.len(),
    ensures
        q[k] == 'N' ==> hamming(q, c) == hamming(q.update(k, c[k]), c),
        c[k] == 'N' ==> hamming(q, c) == hamming(q, c.update(k, q[k])),
{
    let n = if q.len() <= c.len() { q.len() as int } else { c.len() as int };
    if q[k] == 'N' {
        lemma_mismatches_agree(q, c, q.update(k, c[k]), c, n);
    }
    if c[k] == 'N' {
        lemma_mismatches_agree(q, c, q, c.update(k, q[k]), n);
    }
}

/// Where every candidate has `N` at position `k`, what the query holds
/// there does not change the correction.
pub proof fn lemma_wildcard_query_irrelevant(q: Seq<char>, cs: Seq<Seq<char>>, m: nat, k: int, a: char, b: char)
    requires
        0 <= k < q.len(),
        forall|i: int| 0 <= i < cs.len() ==> k < (#[trigger] cs[i]).len() && cs[i][k] == 'N',
    ensures
        correction_of(q.update(k, a), cs, m) == correction_of(q.update(k, b), cs, m),
{
    let qa = q.update(k, a);
    let qb = q.update(k, b);
    assert forall|i: int| 0 <= i < cs.len() implies hamming(qa, #[trigger] cs[i]) == hamming(qb, cs[i]) by {
        let n = if q.len() <= cs[i].len() { q.len() as int } else { cs[i].len() as int };
        lemma_mismatches_agree(qa, cs[i], qb, cs[i], n);
    }
    assert forall|i: int| is_unique_best(qa, cs, m, i) <==> is_unique_best(qb, cs, m, i) by {}
    if exists|i: int| is_unique_best(qa, cs, m, i) {
        let ia = choose|i: int| is_unique_best(qa, cs, m, i);
        let ib = choose|i: int| is_unique_best(qb, cs, m, i);
        lemma_unique_best_is_unique(qb, cs, m, ia, ib);
    }
}

/// At most one candidate is the unique best one.
pub proof fn lemma_unique_best_is_unique(q: Seq<char>, cs: Seq<Seq<char>>, m: nat, i: int, j: int)
    requires
        is_unique_best(q, cs, m, i),
        is_unique_best(q, cs, m, j),
    ensures
        i == j,
{
}

/// Returns the candidate strictly closer to `mismatch_seq` than all others,
/// if it lies within `mismatches` mismatches; `None` when there is no such
/// candidate or when the closest ones tie.
pub fn fix_error(mismatch_seq: &str, possible_seqs: &[String], mismatches: u8) -> (r: Option<
    String,
>)
    ensures
        r matches Some(s) ==> Some(s@) == correction_of(mismatch_seq@, views(possible_seqs@), mismatches as nat),
        r is None ==> correction_of(mismatch_seq@, views(possible_seqs@), mismatches as nat) is None,
{
    let ghost q = mismatch_seq@;
    let ghost cs = views(possible_seqs@);
    let ghost m = mismatches as nat;
    let query = chars_of(mismatch_seq);
    let mut best_match: Option<String> = None;
    let mut best_mismatch_count: u64 = mismatches as u64 + 1;
    let mut keep = true;
    let ghost mut best_idx: int = 0;
    let mut k: usize = 0;
    while k < possible_seqs.len()
        invariant
            q == query@,
            cs == views(possible_seqs@),
            m == mismatches as nat,
            k <= possible_seqs@.len(),
            best_mismatch_count <= m + 1,
            forall|j: int| 0 <= j < k ==> hamming(q, cs[j]) >= best_mismatch_count,
            best_mismatch_count <= m ==> {
                &&& 0 <= best_idx < k
                &&& hamming(q, cs[best_idx]) == best_mismatch_count
                &&& best_match matches Some(s) && s@ == cs[best_idx]
                &&& keep <==> (forall|j: int|
                    0 <= j < k && j != best_idx ==> hamming(q, cs[j]) != best_mismatch_count)
            },
            best_mismatch_count == m + 1 ==> best_match is None,
        decreases possible_seqs@.len() - k,
    {
        let true_seq = &possible_seqs[k];
        let candidate = chars_of(true_seq.as_str());
        let count = count_mismatches(&query, &candidate, best_mismatch_count);
        assert(cs[k as int] == true_seq@);
        if count == best_mismatch_count {
            keep = false;
        }
        if count < best_mismatch_count {
            keep = true;
            best_mismatch_count = count;
            best_match = Some(true_seq.clone());
            proof {
                best_idx = k as int;
            }
        }
        k = k + 1;
    }
    if keep && best_match.is_some() {
        assert(is_unique_best(q, cs, m, best_idx));
        proof {
            let i = choose|i: int| is_unique_best(q, cs, m, i);
            lemma_unique_best_is_unique(q, cs, m, i, best_idx);
        }
        best_match
    } else {
        assert forall|i: int| !is_unique_best(q, cs, m, i) by {
            if is_unique_best(q, cs, m, i) {
                if best_mismatch_count <= m {
                    if i != best_idx {
                        assert(hamming(q, cs[best_idx]) > hamming(q, cs[i]));
                    } else {
                        let j = choose|j: int|
                            0 <= j < cs.len() && j != best_idx && hamming(q, cs[j])
                                == best_mismatch_count;
                        assert(hamming(q, cs[j]) > hamming(q, cs[i]));
                    }
                }
            }
        }
        None
    }
}

} // verus!
