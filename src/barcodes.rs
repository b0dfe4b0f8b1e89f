//! A set of barcode sequences: the candidates a captured window is corrected
//! against.
use vstd::prelude::*;
use vstd::hash_map::StringHashMap;
use crate::correct::{views, hamming, is_unique_best, correction_of, fix_error};

verus! {

/// Distinct barcode sequences, kept in insertion order and indexed by text.
pub struct BarcodeSet {
    keys: Vec<String>,
    index: StringHashMap<usize>,
}

impl View for BarcodeSet {
    type V = Set<Seq<char>>;

    closed spec fn view(&self) -> Set<Seq<char>> {
        views(self.keys@).to_set()
    }
}

impl BarcodeSet {
    /// The members in insertion order.
    pub closed spec fn seq(&self) -> Seq<Seq<char>> {
        views(self.keys@)
    }

    pub closed spec fn wf(&self) -> bool {
        &&& forall|i: int, j: int|
            0 <= i < self.keys@.len() && 0 <= j < self.keys@.len() && i != j ==> self.keys@[i]@
                != self.keys@[j]@
        &&& forall|k: Seq<char>|
            #![trigger self.index@.contains_key(k)]
            self.index@.contains_key(k) <==> self.seq().contains(k)
    }

    pub proof fn lemma_view(&self)
        ensures
            self@ == self.seq().to_set(),
    {
    }

    pub fn new() -> (r: BarcodeSet)
        ensures
            r.wf(),
            r.seq() == Seq::<Seq<char>>::empty(),
            r@ == Set::<Seq<char>>::empty(),
    {
        let r = BarcodeSet { keys: Vec::new(), index: StringHashMap::new() };
        assert(r.seq() =~= Seq::<Seq<char>>::empty());
        assert(r@ =~= Set::<Seq<char>>::empty());
        r
    }

    pub fn len(&self) -> (r: usize)
        ensures
            r == self.seq().len(),
    {
        self.keys.len()
    }

    pub fn is_empty(&self) -> (r: bool)
        requires
            self.wf(),
        ensures
            r <==> self@.is_empty(),
    {
        proof {
            if self.keys@.len() > 0 {
                assert(self@.contains(self.seq()[0]));
            }
        }
        self.keys.len() == 0
    }

    /// Adds `key`; a key already present is left where it stands.
    pub fn insert(&mut self, key: String)
        requires
            old(self).wf(),
        ensures
            final(self).wf(),
            final(self)@ == old(self)@.insert(key@),
            old(self)@.contains(key@) ==> final(self).seq() == old(self).seq(),
            !old(self)@.contains(key@) ==> final(self).seq() == old(self).seq().push(key@),
    {
        if self.index.contains_key(key.as_str()) {
            assert(self@.insert(key@) =~= self@);
            return;
        }
        let ghost old_keys = self.keys@;
        let ghost old_seq = self.seq();
        let ghost old_index = self.index@;
        let pos = self.keys.len();
        let copy = key.clone();
        self.index.insert(key, pos);
        self.keys.push(copy);
        assert(self.seq() =~= old_seq.push(key@));
        assert forall|k: Seq<char>| self.seq().contains(k) <==> old_seq.contains(k) || k == key@ by {
            if old_seq.contains(k) {
                let i = choose|i: int| 0 <= i < old_seq.len() && old_seq[i] == k;
                assert(self.seq()[i] == k);
            }
            if k == key@ {
                assert(self.seq()[pos as int] == k);
            }
            if self.seq().contains(k) && k != key@ {
                let i = choose|i: int| 0 <= i < self.seq().len() && self.seq()[i] == k;
                assert(old_seq[i] == k);
            }
        }
        assert(self@ =~= old(self)@.insert(key@));
        assert(self.index@ == old_index.insert(key@, pos));
        assert forall|k: Seq<char>| #![trigger self.index@.contains_key(k)]
            self.index@.contains_key(k) <==> self.seq().contains(k) by {
            assert(old_index.contains_key(k) <==> old_seq.contains(k));
        }
        assert forall|i: int, j: int|
            0 <= i < self.keys@.len() && 0 <= j < self.keys@.len() && i != j implies self.keys@[i]@
                != self.keys@[j]@ by {
            if i == pos || j == pos {
                assert(!old_seq.contains(key@));
                if i == pos {
                    assert(old_seq[j] == self.keys@[j]@);
                } else {
                    assert(old_seq[i] == self.keys@[i]@);
                }
            } else {
                assert(old_seq[i] == self.keys@[i]@);
                assert(old_seq[j] == self.keys@[j]@);
            }
        }
    }

    pub fn contains(&self, key: &str) -> (r: bool)
        requires
            self.wf(),
        ensures
            r <==> self@.contains(key@),
    {
        self.index.contains_key(key)
    }

    /// The members, in insertion order.
    pub fn keys(&self) -> (r: &[String])
        ensures
            views(r@) == self.seq(),
    {
        self.keys.as_slice()
    }
}

/// `c` is a member within the budget and strictly closer to `q` than every
/// other member.
pub open spec fn is_unique_best_member(q: Seq<char>, s: Set<Seq<char>>, m: nat, c: Seq<char>) -> bool {
    &&& s.contains(c)
    &&& hamming(q, c) <= m
    &&& forall|d: Seq<char>| s.contains(d) && d != c ==> hamming(q, d) > hamming(q, c)
}

/// In a sequence without repeats, the unique best position holds the unique
/// best member of its set.
proof fn lemma_best_index_member(q: Seq<char>, cs: Seq<Seq<char>>, m: nat)
    requires
        forall|i: int, j: int| 0 <= i < cs.len() && 0 <= j < cs.len() && i != j ==> cs[i] != cs[j],
    ensures
        forall|i: int| is_unique_best(q, cs, m, i) <==> 0 <= i < cs.len() && is_unique_best_member(q, cs.to_set(), m, cs[i]),
        forall|c: Seq<char>| is_unique_best_member(q, cs.to_set(), m, c) ==> exists|i: int| is_unique_best(q, cs, m, i) && cs[i] == c,
{
    assert forall|i: int| is_unique_best(q, cs, m, i) implies is_unique_best_member(q, cs.to_set(), m, cs[i]) by {
        assert forall|d: Seq<char>| cs.to_set().contains(d) && d != cs[i] implies hamming(q, d) > hamming(q, cs[i]) by {
            let j = choose|j: int| 0 <= j < cs.len() && cs[j] == d;
        }
    }
    assert forall|i: int| 0 <= i < cs.len() && is_unique_best_member(q, cs.to_set(), m, cs[i]) implies is_unique_best(q, cs, m, i) by {
        assert forall|j: int| 0 <= j < cs.len() && j != i implies hamming(q, cs[j]) > hamming(q, cs[i]) by {
            assert(cs.to_set().contains(cs[j]));
        }
    }
    assert forall|c: Seq<char>| is_unique_best_member(q, cs.to_set(), m, c) implies exists|i: int| is_unique_best(q, cs, m, i) && cs[i] == c by {
        let i = choose|i: int| 0 <= i < cs.len() && cs[i] == c;
        assert(is_unique_best(q, cs, m, i));
    }
}

/// Returns the member of `possible_seqs` strictly closer to `mismatch_seq`
/// than every other member, if it lies within `mismatches` mismatches.
pub fn fix_error_hashset(mismatch_seq: &str, possible_seqs: &BarcodeSet, mismatches: u8) -> (r:
    Option<String>)
    requires
        possible_seqs.wf(),
    ensures
        r matches Some(s) ==> is_unique_best_member(mismatch_seq@, possible_seqs@, mismatches as nat, s@),
        r is None ==> forall|c: Seq<char>| !is_unique_best_member(mismatch_seq@, possible_seqs@, mismatches as nat, c),
{
    let keys = possible_seqs.keys();
    let r = fix_error(mismatch_seq, keys, mismatches);
    proof {
        let q = mismatch_seq@;
        let cs = views(keys@);
        let m = mismatches as nat;
        possible_seqs.lemma_view();
        assert forall|i: int, j: int| 0 <= i < cs.len() && 0 <= j < cs.len() && i != j implies cs[i] != cs[j] by {
            assert(possible_seqs.seq()[i] != possible_seqs.seq()[j]);
        }
        lemma_best_index_member(q, cs, m);
        if exists|i: int| is_unique_best(q, cs, m, i) {
            let i = choose|i: int| is_unique_best(q, cs, m, i);
            assert(correction_of(q, cs, m) == Some(cs[i]));
        }
    }
    r
}

} // verus!
