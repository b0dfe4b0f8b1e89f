//! The aggregate store: per sample, per counted tuple, a count and the set of
//! random barcodes (UMIs) seen, so that each UMI is counted once.
use vstd::prelude::*;
use vstd::hash_map::StringHashMap;

verus! {

/// The count of one (sample, tuple) key and the UMIs seen under it.
pub struct Tally {
    count: u64,
    umis: StringHashMap<()>,
}

/// What the store holds for one key: its count and its UMI set.
pub struct TallyModel {
    pub count: nat,
    pub umis: Set<Seq<char>>,
}

pub open spec fn empty_tally() -> TallyModel {
    TallyModel { count: 0, umis: Set::empty() }
}

impl Tally {
    pub closed spec fn model(&self) -> TallyModel {
        TallyModel { count: self.count as nat, umis: self.umis@.dom() }
    }
}

/// The tallies of one sample, keyed by tuple.
pub struct SampleCounts {
    index: StringHashMap<usize>,
    keys: Vec<String>,
    tallies: Vec<Tally>,
}

impl SampleCounts {
    pub closed spec fn wf(&self) -> bool {
        &&& self.keys@.len() == self.tallies@.len()
        &&& forall|t: Seq<char>| #[trigger]
            self.index@.contains_key(t) ==> self.index@[t] < self.keys@.len()
                && self.keys@[self.index@[t] as int]@ == t
        &&& forall|i: int|
            0 <= i < self.keys@.len() ==> self.index@.contains_key(#[trigger] self.keys@[i]@)
                && self.index@[self.keys@[i]@] == i
    }

    pub closed spec fn view(&self) -> Map<Seq<char>, TallyModel> {
        Map::new(
            |t: Seq<char>| self.index@.contains_key(t),
            |t: Seq<char>| self.tallies@[self.index@[t] as int].model(),
        )
    }

    pub fn new() -> (r: SampleCounts)
        ensures
            r.wf(),
            r.view() == Map::<Seq<char>, TallyModel>::empty(),
    {
        let r = SampleCounts { index: StringHashMap::new(), keys: Vec::new(), tallies: Vec::new() };
        assert(r.view() =~= Map::<Seq<char>, TallyModel>::empty());
        r
    }

    /// The position of `tuple`'s tally, created empty when absent.
    fn slot(&mut self, tuple: &str) -> (i: usize)
        requires
            old(self).wf(),
        ensures
            final(self).wf(),
            i < final(self).tallies@.len(),
            final(self).index@.contains_key(tuple@),
            final(self).index@[tuple@] == i,
            final(self).view() == if old(self).view().contains_key(tuple@) {
                old(self).view()
            } else {
                old(self).view().insert(tuple@, empty_tally())
            },
    {
        match self.index.get(tuple) {
            Some(i) => *i,
            None => {
                let ghost old_view = self.view();
                let ghost old_index = self.index@;
                let i = self.keys.len();
                self.index.insert(tuple.to_owned(), i);
                self.keys.push(tuple.to_owned());
                self.tallies.push(Tally { count: 0, umis: StringHashMap::new() });
                assert(self.tallies@[i as int].model() == empty_tally()) by {
                    assert(self.tallies@[i as int].umis@.dom() =~= Set::<Seq<char>>::empty());
                }
                assert forall|t: Seq<char>| #[trigger] self.index@.contains_key(t) implies self.index@[t]
                    < self.keys@.len() && self.keys@[self.index@[t] as int]@ == t by {
                    if t != tuple@ {
                        assert(old_index.contains_key(t));
                    }
                }
                assert forall|j: int| 0 <= j < self.keys@.len() implies self.index@.contains_key(
                    #[trigger] self.keys@[j]@,
                ) && self.index@[self.keys@[j]@] == j by {
                    if j < i {
                        assert(old_index.contains_key(old(self).keys@[j]@));
                        assert(self.keys@[j] == old(self).keys@[j]);
                    }
                }
                assert(self.view() =~= old_view.insert(tuple@, empty_tally()));
                i
            },
        }
    }

    /// Adds one to the count of `tuple` (saturating at the largest `u64`).
    pub fn add_count(&mut self, tuple: &str)
        requires
            old(self).wf(),
        ensures
            final(self).wf(),
            final(self).view() == old(self).view().insert(tuple@, bump(tally_of(old(self).view(), tuple@))),
    {
        let i = self.slot(tuple);
        let ghost mid = self.view();
        let ghost mid_tallies = self.tallies@;
        assert(mid.contains_key(tuple@));
        assert(mid[tuple@] == mid_tallies[i as int].model());
        assert(tally_of(old(self).view(), tuple@) == mid[tuple@]);
        let tally = &mut self.tallies[i];
        if tally.count < u64::MAX {
            tally.count = tally.count + 1;
        }
        assert(self.tallies@[i as int].model() == bump(mid_tallies[i as int].model()));
        assert forall|j: int| 0 <= j < self.tallies@.len() && j != i implies self.tallies@[j] == mid_tallies[j] by {}
        assert(self.view() =~= mid.insert(tuple@, bump(tally_of(old(self).view(), tuple@))));
    }

    /// Records `random` under `tuple`; true, and one more count, when it was
    /// not seen before.
    pub fn add_random(&mut self, random: &str, tuple: &str) -> (r: bool)
        requires
            old(self).wf(),
        ensures
            final(self).wf(),
            r == !tally_of(old(self).view(), tuple@).umis.contains(random@),
            final(self).view() == old(self).view().insert(
                tuple@,
                add_umi(tally_of(old(self).view(), tuple@), random@),
            ),
    {
        let i = self.slot(tuple);
        let ghost mid = self.view();
        let ghost mid_tallies = self.tallies@;
        assert(mid.contains_key(tuple@));
        assert(mid[tuple@] == mid_tallies[i as int].model());
        assert(tally_of(old(self).view(), tuple@) == mid[tuple@]);
        let tally = &mut self.tallies[i];
        if tally.umis.contains_key(random) {
            assert(self.view() =~= mid.insert(tuple@, add_umi(tally_of(old(self).view(), tuple@), random@)));
            false
        } else {
            tally.umis.insert(random.to_owned(), ());
            if tally.count < u64::MAX {
                tally.count = tally.count + 1;
            }
            assert(self.tallies@[i as int].umis@.dom() =~= mid_tallies[i as int].model().umis.insert(random@));
            assert(self.tallies@[i as int].model() == add_umi(mid_tallies[i as int].model(), random@));
            assert forall|j: int| 0 <= j < self.tallies@.len() && j != i implies self.tallies@[j] == mid_tallies[j] by {}
            assert(self.view() =~= mid.insert(tuple@, add_umi(tally_of(old(self).view(), tuple@), random@)));
            true
        }
    }

    /// The tuples and their counts, in order of first sight.
    pub fn counts(&self) -> (r: Vec<(String, u64)>)
        requires
            self.wf(),
        ensures
            lists_counts(self.view(), r@),
    {
        let mut r: Vec<(String, u64)> = Vec::new();
        let mut i: usize = 0;
        while i < self.keys.len()
            invariant
                self.wf(),
                i <= self.keys@.len(),
                r@.len() == i,
                forall|j: int| 0 <= j < i ==> r@[j].0@ == self.keys@[j]@ && r@[j].1 == self.tallies@[j].count,
            decreases self.keys@.len() - i,
        {
            let key = self.keys[i].clone();
            r.push((key, self.tallies[i].count));
            i = i + 1;
        }
        proof {
            assert forall|t: Seq<char>| #[trigger] self.view().contains_key(t) implies exists|j: int|
                0 <= j < r@.len() && r@[j].0@ == t by {
                let j = self.index@[t] as int;
                assert(r@[j].0@ == t);
            }
            let f = |j: int| self.keys@[j]@;
            assert(self.view().dom() =~= Set::new(|j: int| 0 <= j < self.keys@.len()).map(f)) by {
                assert forall|t: Seq<char>| self.view().dom().contains(t) implies Set::new(|j: int| 0 <= j < self.keys@.len()).map(f).contains(t) by {
                    let j = self.index@[t] as int;
                    assert(Set::new(|j: int| 0 <= j < self.keys@.len()).contains(j));
                }
            }
            assert(vstd::set_lib::set_int_range(0, self.keys@.len() as int) =~= Set::new(|j: int| 0 <= j < self.keys@.len()));
            vstd::set_lib::lemma_int_range(0, self.keys@.len() as int);
            assert forall|a: int, b: int| Set::new(|j: int| 0 <= j < self.keys@.len()).contains(a)
                && Set::new(|j: int| 0 <= j < self.keys@.len()).contains(b) && #[trigger] f(a) == #[trigger] f(b) implies a == b by {
                assert(self.index@[self.keys@[a]@] == a);
            }
            vstd::set_lib::lemma_map_size(Set::new(|j: int| 0 <= j < self.keys@.len()), self.view().dom(), f);
            assert forall|j: int| 0 <= j < r@.len() implies #[trigger] self.view().contains_key(r@[j].0@)
                && self.view()[r@[j].0@].count == r@[j].1 as nat by {
                assert(self.index@.contains_key(self.keys@[j]@));
            }
        }
        r
    }
}

pub open spec fn tally_of(m: Map<Seq<char>, TallyModel>, t: Seq<char>) -> TallyModel {
    if m.contains_key(t) {
        m[t]
    } else {
        empty_tally()
    }
}

/// One more count, saturating at the largest `u64`.
pub open spec fn bump(t: TallyModel) -> TallyModel {
    TallyModel { count: if t.count < u64::MAX { t.count + 1 } else { t.count }, umis: t.umis }
}

/// Records a UMI: a new one adds it and one count; a known one changes nothing.
pub open spec fn add_umi(t: TallyModel, u: Seq<char>) -> TallyModel {
    if t.umis.contains(u) {
        t
    } else {
        TallyModel { count: bump(t).count, umis: t.umis.insert(u) }
    }
}

/// Counts of every sample: sample name, then tuple, then tally.
pub struct Results {
    index: StringHashMap<usize>,
    names: Vec<String>,
    samples: Vec<SampleCounts>,
}

impl Results {
    pub closed spec fn wf(&self) -> bool {
        &&& self.names@.len() == self.samples@.len()
        &&& forall|s: Seq<char>| #[trigger]
            self.index@.contains_key(s) ==> self.index@[s] < self.names@.len()
                && self.names@[self.index@[s] as int]@ == s
        &&& forall|i: int|
            0 <= i < self.names@.len() ==> self.index@.contains_key(#[trigger] self.names@[i]@)
                && self.index@[self.names@[i]@] == i
        &&& forall|i: int| 0 <= i < self.samples@.len() ==> (#[trigger] self.samples@[i]).wf()
    }

    /// Sample name to the tallies of its tuples.
    pub closed spec fn view(&self) -> Map<Seq<char>, Map<Seq<char>, TallyModel>> {
        Map::new(
            |s: Seq<char>| self.index@.contains_key(s),
            |s: Seq<char>| self.samples@[self.index@[s] as int].view(),
        )
    }

    /// The tally of (`s`, `t`), empty when never touched.
    pub open spec fn tally(&self, s: Seq<char>, t: Seq<char>) -> TallyModel {
        tally_in(self.view(), s, t)
    }

    pub fn new() -> (r: Results)
        ensures
            r.wf(),
            r.view() == Map::<Seq<char>, Map<Seq<char>, TallyModel>>::empty(),
    {
        let r = Results { index: StringHashMap::new(), names: Vec::new(), samples: Vec::new() };
        assert(r.view() =~= Map::<Seq<char>, Map<Seq<char>, TallyModel>>::empty());
        r
    }

    /// The position of `sample`'s counts, created empty when absent.
    fn slot(&mut self, sample: &str) -> (i: usize)
        requires
            old(self).wf(),
        ensures
            final(self).wf(),
            i < final(self).samples@.len(),
            final(self).index@.contains_key(sample@),
            final(self).index@[sample@] == i,
            final(self).view() == if old(self).view().contains_key(sample@) {
                old(self).view()
            } else {
                old(self).view().insert(sample@, Map::empty())
            },
    {
        match self.index.get(sample) {
            Some(i) => *i,
            None => {
                let ghost old_view = self.view();
                let ghost old_index = self.index@;
                let i = self.names.len();
                self.index.insert(sample.to_owned(), i);
                self.names.push(sample.to_owned());
                self.samples.push(SampleCounts::new());
                assert forall|s: Seq<char>| #[trigger] self.index@.contains_key(s) implies self.index@[s]
                    < self.names@.len() && self.names@[self.index@[s] as int]@ == s by {
                    if s != sample@ {
                        assert(old_index.contains_key(s));
                    }
                }
                assert forall|j: int| 0 <= j < self.names@.len() implies self.index@.contains_key(
                    #[trigger] self.names@[j]@,
                ) && self.index@[self.names@[j]@] == j by {
                    if j < i {
                        assert(old_index.contains_key(old(self).names@[j]@));
                        assert(self.names@[j] == old(self).names@[j]);
                    }
                }
                assert forall|j: int| 0 <= j < self.samples@.len() implies (#[trigger] self.samples@[j]).wf() by {
                    if j < i {
                        assert(self.samples@[j] == old(self).samples@[j]);
                    }
                }
                assert(self.view() =~= old_view.insert(sample@, Map::empty()));
                i
            },
        }
    }

    /// Adds one to the count of (`sample`, `tuple`).
    pub fn add_count(&mut self, sample: &str, tuple: &str)
        requires
            old(self).wf(),
        ensures
            final(self).wf(),
            final(self).view() == count_step(old(self).view(), sample@, tuple@),
    {
        let i = self.slot(sample);
        let ghost mid = self.view();
        let ghost mid_samples = self.samples@;
        assert(mid[sample@] == mid_samples[i as int].view());
        assert(sample_view(old(self).view(), sample@) == mid[sample@]);
        self.samples[i].add_count(tuple);
        proof {
            self.finish_update(mid, mid_samples, i, sample);
        }
    }

    /// Records `random` under (`sample`, `tuple`); true, and one more count,
    /// when it was not seen there before.
    pub fn add_random(&mut self, sample: &str, random: &str, tuple: &str) -> (r: bool)
        requires
            old(self).wf(),
        ensures
            final(self).wf(),
            r == !old(self).tally(sample@, tuple@).umis.contains(random@),
            final(self).view() == random_step(old(self).view(), sample@, random@, tuple@),
    {
        let i = self.slot(sample);
        let ghost mid = self.view();
        let ghost mid_samples = self.samples@;
        assert(mid[sample@] == mid_samples[i as int].view());
        assert(sample_view(old(self).view(), sample@) == mid[sample@]);
        let r = self.samples[i].add_random(random, tuple);
        proof {
            self.finish_update(mid, mid_samples, i, sample);
        }
        r
    }

    /// After one sample's counts changed in place, the view changes at that
    /// sample alone.
    proof fn finish_update(
        &self,
        mid: Map<Seq<char>, Map<Seq<char>, TallyModel>>,
        mid_samples: Seq<SampleCounts>,
        i: usize,
        sample: &str,
    )
        requires
            self.samples@.len() == mid_samples.len(),
            i < mid_samples.len(),
            self.samples@[i as int].wf(),
            forall|j: int| 0 <= j < mid_samples.len() && j != i ==> self.samples@[j] == mid_samples[j],
            forall|j: int| 0 <= j < mid_samples.len() ==> (#[trigger] mid_samples[j]).wf(),
            self.names@.len() == mid_samples.len(),
            forall|s: Seq<char>| #[trigger]
                self.index@.contains_key(s) ==> self.index@[s] < self.names@.len()
                    && self.names@[self.index@[s] as int]@ == s,
            forall|j: int|
                0 <= j < self.names@.len() ==> self.index@.contains_key(#[trigger] self.names@[j]@)
                    && self.index@[self.names@[j]@] == j,
            self.index@.contains_key(sample@),
            self.index@[sample@] == i,
            mid == Map::new(
                |s: Seq<char>| self.index@.contains_key(s),
                |s: Seq<char>| mid_samples[self.index@[s] as int].view(),
            ),
        ensures
            self.wf(),
            self.view() == mid.insert(sample@, self.samples@[i as int].view()),
    {
        assert forall|j: int| 0 <= j < self.samples@.len() implies (#[trigger] self.samples@[j]).wf() by {
            if j != i {
                assert(self.samples@[j] == mid_samples[j]);
            }
        }
        assert forall|s: Seq<char>| self.index@.contains_key(s) && s != sample@ implies self.samples@[self.index@[s] as int]
            == mid_samples[self.index@[s] as int] by {
            assert(self.names@[self.index@[s] as int]@ == s);
        }
        assert(self.view() =~= mid.insert(sample@, self.samples@[i as int].view()));
    }

    /// Per sample, the tuples seen and their counts.
    pub fn drain(&self) -> (r: Vec<(String, Vec<(String, u64)>)>)
        requires
            self.wf(),
        ensures
            r@.len() == self.view().dom().len(),
            forall|i: int| 0 <= i < r@.len() ==> #[trigger] self.view().contains_key(r@[i].0@)
                && lists_counts(self.view()[r@[i].0@], r@[i].1@),
            forall|s: Seq<char>| #[trigger] self.view().contains_key(s) ==> exists|i: int|
                0 <= i < r@.len() && r@[i].0@ == s,
    {
        let mut r: Vec<(String, Vec<(String, u64)>)> = Vec::new();
        let mut i: usize = 0;
        while i < self.names.len()
            invariant
                self.wf(),
                i <= self.names@.len(),
                r@.len() == i,
                forall|j: int| 0 <= j < i ==> #[trigger] r@[j].0@ == self.names@[j]@,
                forall|j: int| 0 <= j < i ==> lists_counts(self.samples@[j].view(), #[trigger] r@[j].1@),
            decreases self.names@.len() - i,
        {
            let name = self.names[i].clone();
            let counts = self.samples[i].counts();
            let ghost old_r = r@;
            assert(name@ == self.names@[i as int]@);
            assert(lists_counts(self.samples@[i as int].view(), counts@));
            r.push((name, counts));
            assert(r@[i as int].0@ == self.names@[i as int]@);
            assert(r@[i as int].1@ == counts@);
            let ghost k = i as int;
            i = i + 1;
            assert forall|j: int| 0 <= j < i implies #[trigger] r@[j].0@ == self.names@[j]@ by {
                if j < k {
                    assert(r@[j] == old_r[j]);
                }
            }
            assert forall|j: int| 0 <= j < i implies lists_counts(self.samples@[j].view(), #[trigger] r@[j].1@) by {
                if j < k {
                    assert(r@[j] == old_r[j]);
                    assert(lists_counts(self.samples@[j].view(), old_r[j].1@));
                } else {
                    assert(r@[j].1@ == counts@);
                }
            }
        }
        proof {
            assert forall|s: Seq<char>| #[trigger] self.view().contains_key(s) implies exists|j: int|
                0 <= j < r@.len() && r@[j].0@ == s by {
                let j = self.index@[s] as int;
                assert(lists_counts(self.samples@[j].view(), r@[j].1@));
                assert(r@[j].0@ == s);
            }
            assert forall|j: int| 0 <= j < r@.len() implies #[trigger] self.view().contains_key(r@[j].0@)
                && self.view()[r@[j].0@] == self.samples@[j].view() by {
                assert(lists_counts(self.samples@[j].view(), r@[j].1@));
                assert(self.index@.contains_key(self.names@[j]@));
            }
            let f = |j: int| self.names@[j]@;
            let dom_ix = Set::new(|j: int| 0 <= j < self.names@.len());
            assert(self.view().dom() =~= dom_ix.map(f)) by {
                assert forall|s: Seq<char>| self.view().dom().contains(s) implies dom_ix.map(f).contains(s) by {
                    let j = self.index@[s] as int;
                    assert(dom_ix.contains(j));
                }
            }
            assert(vstd::set_lib::set_int_range(0, self.names@.len() as int) =~= dom_ix);
            vstd::set_lib::lemma_int_range(0, self.names@.len() as int);
            assert forall|a: int, b: int| dom_ix.contains(a) && dom_ix.contains(b) && #[trigger] f(a) == #[trigger] f(b) implies a == b by {
                assert(self.index@[self.names@[a]@] == a);
            }
            vstd::set_lib::lemma_map_size(dom_ix, self.view().dom(), f);
        }
        r
    }
}

/// `v` lists each tuple of `m` once, with its count.
pub open spec fn lists_counts(m: Map<Seq<char>, TallyModel>, v: Seq<(String, u64)>) -> bool {
    &&& v.len() == m.dom().len()
    &&& forall|i: int| 0 <= i < v.len() ==> #[trigger] m.contains_key(v[i].0@) && m[v[i].0@].count == v[i].1 as nat
    &&& forall|t: Seq<char>| #[trigger] m.contains_key(t) ==> exists|i: int| 0 <= i < v.len() && v[i].0@ == t
}

pub type StoreView = Map<Seq<char>, Map<Seq<char>, TallyModel>>;

/// The tally of (`s`, `t`) in `v`, empty when absent.
pub open spec fn tally_in(v: StoreView, s: Seq<char>, t: Seq<char>) -> TallyModel {
    if v.contains_key(s) {
        tally_of(v[s], t)
    } else {
        empty_tally()
    }
}

/// The store after one more count of (`s`, `t`).
pub open spec fn count_step(v: StoreView, s: Seq<char>, t: Seq<char>) -> StoreView {
    v.insert(s, sample_view(v, s).insert(t, bump(tally_in(v, s, t))))
}

/// The store after UMI `u` is seen under (`s`, `t`).
pub open spec fn random_step(v: StoreView, s: Seq<char>, u: Seq<char>, t: Seq<char>) -> StoreView {
    v.insert(s, sample_view(v, s).insert(t, add_umi(tally_in(v, s, t), u)))
}

/// The store after one matched read with sample `s`, tuple `t` and random
/// barcode `u` (empty when the format has none).
pub open spec fn store_step(v: StoreView, s: Seq<char>, t: Seq<char>, u: Seq<char>) -> StoreView {
    if u.len() == 0 {
        count_step(v, s, t)
    } else {
        random_step(v, s, u, t)
    }
}

/// Counting two matched reads in either order gives the same store, so the
/// final counts do not depend on the order in which workers take reads.
pub proof fn lemma_steps_commute(
    v: StoreView,
    s1: Seq<char>,
    t1: Seq<char>,
    u1: Seq<char>,
    s2: Seq<char>,
    t2: Seq<char>,
    u2: Seq<char>,
)
    ensures
        store_step(store_step(v, s1, t1, u1), s2, t2, u2) == store_step(store_step(v, s2, t2, u2), s1, t1, u1),
{
    let a = store_step(store_step(v, s1, t1, u1), s2, t2, u2);
    let b = store_step(store_step(v, s2, t2, u2), s1, t1, u1);
    if s1 == s2 && t1 == t2 {
        let x = tally_in(v, s1, t1);
        let step1 = |x: TallyModel| if u1.len() == 0 { bump(x) } else { add_umi(x, u1) };
        let step2 = |x: TallyModel| if u2.len() == 0 { bump(x) } else { add_umi(x, u2) };
        assert(step2(step1(x)) == step1(step2(x))) by {
            if u1.len() > 0 && u2.len() > 0 && u1 != u2 {
                assert(step2(step1(x)).umis =~= step1(step2(x)).umis);
            }
        }
        assert(tally_in(store_step(v, s1, t1, u1), s1, t1) == step1(x));
        assert(tally_in(store_step(v, s2, t2, u2), s1, t1) == step2(x));
        assert(a[s1] =~= b[s1]);
    } else if s1 == s2 {
        assert(a[s1] =~= b[s1]);
    }
    assert(a =~= b);
}

/// One matched read as the store sees it: sample, tuple key, random barcode.
pub type Step = (Seq<char>, Seq<char>, Seq<char>);

/// The store after counting `steps` in order, from `v`.
pub open spec fn store_run(v: StoreView, steps: Seq<Step>) -> StoreView
    decreases steps.len(),
{
    if steps.len() == 0 {
        v
    } else {
        store_step(store_run(v, steps.drop_last()), steps.last().0, steps.last().1, steps.last().2)
    }
}

/// A read counted at any place in a run gives the same store as counted last.
proof fn lemma_run_move_to_end(v: StoreView, steps: Seq<Step>, i: int, x: Step)
    requires
        0 <= i <= steps.len(),
    ensures
        store_run(v, steps.insert(i, x)) == store_run(v, steps.push(x)),
    decreases steps.len(),
{
    if i == steps.len() {
        assert(steps.insert(i, x) =~= steps.push(x));
    } else {
        let front = steps.drop_last();
        let y = steps.last();
        assert(steps.insert(i, x) =~= front.insert(i, x).push(y));
        assert(steps.insert(i, x).drop_last() =~= front.insert(i, x));
        lemma_run_move_to_end(v, front, i, x);
        assert(front.push(x).drop_last() =~= front);
        assert(steps.push(x).drop_last() =~= steps);
        assert(steps.drop_last() =~= front);
        lemma_steps_commute(store_run(v, front), x.0, x.1, x.2, y.0, y.1, y.2);
        let w = store_run(v, front);
        assert(steps.insert(i, x).last() == y);
        assert(store_run(v, steps.insert(i, x)) == store_step(store_run(v, front.insert(i, x)), y.0, y.1, y.2));
        assert(store_run(v, front.push(x)) == store_step(w, x.0, x.1, x.2));
        assert(store_run(v, steps) == store_step(w, y.0, y.1, y.2));
        assert(store_run(v, steps.push(x)) == store_step(store_run(v, steps), x.0, x.1, x.2));
    }
}

/// The store after a run depends only on which reads were counted, not on
/// their order: any two orderings of the same reads give the same counts.
pub proof fn lemma_run_order_free(v: StoreView, p: Seq<Step>, q: Seq<Step>)
    requires
        p.to_multiset() == q.to_multiset(),
    ensures
        store_run(v, p) == store_run(v, q),
    decreases p.len(),
{
    broadcast use vstd::seq_lib::group_to_multiset_ensures;

    if p.len() == 0 {
        assert(q.len() == q.to_multiset().len());
        assert(p.len() == p.to_multiset().len());
        assert(q =~= p);
    } else {
        let x = p.last();
        let front = p.drop_last();
        assert(p =~= front.push(x));
        assert(p.to_multiset().count(x) > 0);
        assert(q.contains(x));
        let i = choose|i: int| 0 <= i < q.len() && q[i] == x;
        let rest = q.remove(i);
        assert(rest.to_multiset() == q.to_multiset().remove(x));
        assert(front.to_multiset() =~= p.to_multiset().remove(x));
        lemma_run_order_free(v, front, rest);
        assert(q =~= rest.insert(i, x));
        lemma_run_move_to_end(v, rest, i, x);
        assert(rest.push(x).drop_last() =~= rest);
    }
}

/// `k` submissions of one UMI under one (sample, tuple) key.
pub open spec fn repeat_random(v: StoreView, s: Seq<char>, u: Seq<char>, t: Seq<char>, k: nat) -> StoreView
    decreases k,
{
    if k == 0 {
        v
    } else {
        random_step(repeat_random(v, s, u, t, (k - 1) as nat), s, u, t)
    }
}

/// Submitting one UMI `k >= 1` times leaves the store as submitting it once.
pub proof fn lemma_umi_repeats(v: StoreView, s: Seq<char>, u: Seq<char>, t: Seq<char>, k: nat)
    requires
        k >= 1,
    ensures
        repeat_random(v, s, u, t, k) == random_step(v, s, u, t),
    decreases k,
{
    assert(repeat_random(v, s, u, t, 0) == v);
    if k > 1 {
        lemma_umi_repeats(v, s, u, t, (k - 1) as nat);
        lemma_umi_idempotent(v, s, u, t);
        assert(repeat_random(v, s, u, t, k) == random_step(repeat_random(v, s, u, t, (k - 1) as nat), s, u, t));
    }
}

pub open spec fn sample_view(m: Map<Seq<char>, Map<Seq<char>, TallyModel>>, s: Seq<char>) -> Map<Seq<char>, TallyModel> {
    if m.contains_key(s) {
        m[s]
    } else {
        Map::empty()
    }
}

/// Submitting the same UMI again under the same (sample, tuple) key changes
/// nothing: the store after any number of repeats is the store after the
/// first.
pub proof fn lemma_umi_idempotent(v: StoreView, s: Seq<char>, u: Seq<char>, t: Seq<char>)
    ensures
        random_step(random_step(v, s, u, t), s, u, t) == random_step(v, s, u, t),
{
    let once = random_step(v, s, u, t);
    assert(tally_in(once, s, t) == add_umi(tally_in(v, s, t), u));
    assert(add_umi(add_umi(tally_in(v, s, t), u), u) == add_umi(tally_in(v, s, t), u));
    assert(random_step(once, s, u, t)[s] =~= once[s]);
    assert(random_step(once, s, u, t) =~= once);
}

} // verus!
