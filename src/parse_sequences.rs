//! The per-read pipeline: locate the template (repairing constant regions
//! when needed), capture the windows, correct each against its barcodes,
//! and record the outcome in the aggregate store and the counters.
use vstd::prelude::*;
use crate::barcodes::{BarcodeSet, fix_error_hashset, is_unique_best_member};
use crate::correct::hamming;
use crate::errors::{ReadKind, SequenceErrors};
use crate::format::{
    Segment, SequenceFormat, captured_groups, opt_view, counted_groups, groups_view, random_group, sample_group,
    skeleton,
};
use crate::raw_sequence::{RawSequence, fixed_read};
use crate::results::{Results, TallyModel, store_step};
use vstd::string::StringExecFns;

verus! {

/// The mismatch budgets: constant regions, sample window, and each counted
/// window in order.
pub struct MaxSeqErrors {
    pub constant_region: u8,
    pub sample_barcode: u8,
    pub barcode: Vec<u8>,
}

/// The default budget for a window of `len` characters: one mismatch per
/// five characters, at most 255.
pub fn default_budget(len: usize) -> (r: u8)
    ensures
        r as int == if len / 5 <= 255 { (len / 5) as int } else { 255int },
{
    let b = len / 5;
    if b <= 255 {
        b as u8
    } else {
        255
    }
}

pub open spec fn budget_of(len: nat) -> u8 {
    if len / 5 <= 255 {
        (len / 5) as u8
    } else {
        255
    }
}

/// Total length of the constant runs.
pub open spec fn constant_len(segs: Seq<Segment>) -> nat
    decreases segs.len(),
{
    if segs.len() == 0 {
        0
    } else {
        constant_len(segs.drop_last()) + match segs.last() {
            Segment::Constant(t) => t@.len(),
            _ => 0,
        }
    }
}

/// Length of the (last) sample window, 0 without one.
pub open spec fn sample_len(segs: Seq<Segment>) -> nat
    decreases segs.len(),
{
    if segs.len() == 0 {
        0
    } else {
        match segs.last() {
            Segment::Sample(n) => n as nat,
            _ => sample_len(segs.drop_last()),
        }
    }
}

/// The default budget of each counted window, in order.
pub open spec fn counted_budgets(segs: Seq<Segment>) -> Seq<u8>
    decreases segs.len(),
{
    if segs.len() == 0 {
        Seq::empty()
    } else {
        match segs.last() {
            Segment::Counted(n) => counted_budgets(segs.drop_last()).push(budget_of(n as nat)),
            _ => counted_budgets(segs.drop_last()),
        }
    }
}

pub proof fn lemma_counted_budgets_len(segs: Seq<Segment>)
    ensures
        counted_budgets(segs).len() == crate::format::counted_groups(segs).len(),
    decreases segs.len(),
{
    if segs.len() > 0 {
        lemma_counted_budgets_len(segs.drop_last());
    }
}

impl MaxSeqErrors {
    /// The default budgets for a layout: a fifth of the constant regions'
    /// total length, of the sample window, and of each counted window.
    pub fn from_layout(layout: &Vec<Segment>) -> (r: MaxSeqErrors)
        ensures
            r.constant_region == budget_of(constant_len(layout@)),
            r.sample_barcode == budget_of(sample_len(layout@)),
            r.barcode@ == counted_budgets(layout@),
            r.barcode@.len() == crate::format::counted_groups(layout@).len(),
    {
        let ghost segs = layout@;
        let mut constant: usize = 0;
        let mut sample: usize = 0;
        let mut barcode: Vec<u8> = Vec::new();
        let mut i: usize = 0;
        while i < layout.len()
            invariant
                segs == layout@,
                i <= segs.len(),
                constant as nat == if constant_len(segs.take(i as int)) < 2000 { constant_len(segs.take(i as int)) } else { 2000 },
                sample as nat == sample_len(segs.take(i as int)),
                barcode@ == counted_budgets(segs.take(i as int)),
            decreases segs.len() - i,
        {
            assert(segs.take(i + 1).drop_last() =~= segs.take(i as int));
            assert(segs.take(i + 1).last() == segs[i as int]);
            match &layout[i] {
                Segment::Constant(t) => {
                    let n = t.as_str().unicode_len();
                    if n >= 2000 || constant + n >= 2000 {
                        constant = 2000;
                    } else {
                        constant = constant + n;
                    }
                },
                Segment::Sample(n) => {
                    sample = *n;
                },
                Segment::Counted(n) => {
                    barcode.push(default_budget(*n));
                },
                Segment::Random(_) => {},
            }
            i = i + 1;
        }
        assert(segs.take(segs.len() as int) =~= segs);
        proof {
            lemma_counted_budgets_len(segs);
        }
        MaxSeqErrors { constant_region: default_budget(constant), sample_barcode: default_budget(sample), barcode }
    }
}

/// A fault of the matching machinery itself, not of the read.
#[derive(Clone, Copy, Debug, PartialEq, Eq, Structural)]
pub enum ParseError {
    /// The match did not report a counted window's group.
    MissingGroup,
}

/// A captured window as read against its barcodes: itself when it is one,
/// else the unique closest barcode within the budget, else nothing.
pub open spec fn window_fix(q: Seq<char>, set: Set<Seq<char>>, m: nat) -> Option<Seq<char>> {
    if set.contains(q) {
        Some(q)
    } else if exists|c: Seq<char>| is_unique_best_member(q, set, m, c) {
        Some(choose|c: Seq<char>| is_unique_best_member(q, set, m, c))
    } else {
        None
    }
}

pub proof fn lemma_unique_member(q: Seq<char>, set: Set<Seq<char>>, m: nat, a: Seq<char>, b: Seq<char>)
    requires
        is_unique_best_member(q, set, m, a),
        is_unique_best_member(q, set, m, b),
    ensures
        a == b,
{
    if a != b {
        assert(hamming(q, a) > hamming(q, b));
        assert(hamming(q, b) > hamming(q, a));
    }
}

/// Corrects a captured window against `set`.
pub fn correct_window(q: &str, set: &BarcodeSet, m: u8) -> (r: Option<String>)
    requires
        set.wf(),
    ensures
        opt_view(r) == window_fix(q@, set@, m as nat),
{
    if set.contains(q) {
        Some(q.to_owned())
    } else {
        let r = fix_error_hashset(q, set, m);
        proof {
            if r is Some {
                let c = choose|c: Seq<char>| is_unique_best_member(q@, set@, m as nat, c);
                lemma_unique_member(q@, set@, m as nat, c, r->0@);
            }
        }
        r
    }
}

/// The text of group `i`, if the match reported it.
pub open spec fn group_text(g: Seq<Option<Seq<char>>>, i: nat) -> Option<Seq<char>> {
    if i < g.len() {
        g[i as int]
    } else {
        None
    }
}

/// The texts of the counted windows, if all were reported.
pub open spec fn counted_texts(g: Seq<Option<Seq<char>>>, groups: Seq<nat>) -> Option<Seq<Seq<char>>> {
    if forall|k: int| 0 <= k < groups.len() ==> (#[trigger] group_text(g, groups[k])) is Some {
        Some(Seq::new(groups.len(), |k: int| group_text(g, groups[k])->0))
    } else {
        None
    }
}

/// The first `n` counted windows corrected in order; `None` as soon as one
/// has no correction.
pub open spec fn fix_upto(qs: Seq<Seq<char>>, sets: Seq<Set<Seq<char>>>, ms: Seq<u8>, n: int) -> Option<Seq<Seq<char>>>
    decreases n,
{
    if n <= 0 {
        Some(Seq::empty())
    } else {
        match fix_upto(qs, sets, ms, n - 1) {
            None => None,
            Some(p) => match window_fix(qs[n - 1], sets[n - 1], ms[n - 1] as nat) {
                None => None,
                Some(c) => Some(p.push(c)),
            },
        }
    }
}

/// Window `j` is the first that cannot be corrected: the windows before it
/// correct to `before`, and it has no correction.
pub open spec fn fails_at(qs: Seq<Seq<char>>, sets: Seq<Set<Seq<char>>>, ms: Seq<u8>, j: int, before: Seq<Seq<char>>) -> bool {
    &&& 0 <= j < qs.len()
    &&& fix_upto(qs, sets, ms, j) == Some(before)
    &&& window_fix(qs[j], sets[j], ms[j] as nat) is None
}

/// The sample identity of a match: `Some` of the corrected sample barcode
/// (empty without a sample window or dictionary), `None` on a sample error.
pub open spec fn sample_outcome(g: Seq<Option<Seq<char>>>, group: Option<nat>, set: Option<Set<Seq<char>>>, m: nat) -> Option<Seq<char>> {
    match group {
        None => Some(Seq::empty()),
        Some(i) => match group_text(g, i) {
            None => Some(Seq::empty()),
            Some(q) => match set {
                None => Some(Seq::empty()),
                Some(s) => window_fix(q, s, m),
            },
        },
    }
}

/// The random barcode of a match, empty when there is none.
pub open spec fn random_outcome(g: Seq<Option<Seq<char>>>, group: Option<nat>) -> Seq<char> {
    match group {
        None => Seq::empty(),
        Some(i) => match group_text(g, i) {
            None => Seq::empty(),
            Some(q) => q,
        },
    }
}

/// The counted windows after correction, verbatim without dictionaries;
/// `None` on a counted-barcode error.
pub open spec fn counted_outcome(qs: Seq<Seq<char>>, sets: Option<Seq<Set<Seq<char>>>>, ms: Seq<u8>) -> Option<Seq<Seq<char>>> {
    match sets {
        None => Some(qs),
        Some(v) => fix_upto(qs, v, ms, qs.len() as int),
    }
}

pub open spec fn opt_set_views(o: Option<Vec<BarcodeSet>>) -> Option<Seq<Set<Seq<char>>>> {
    match o {
        Some(v) => Some(set_views(v@)),
        None => None,
    }
}

/// `r` is what the windows of the groups `g` give: the sample outcome, then
/// the counted outcome unless the sample failed, and the random barcode.
pub open spec fn describes(
    g: Seq<Option<Seq<char>>>,
    groups: Seq<nat>,
    sample_group: Option<nat>,
    random_group: Option<nat>,
    sets: Option<Seq<Set<Seq<char>>>>,
    cms: Seq<u8>,
    sample_set: Option<Set<Seq<char>>>,
    sm: nat,
    r: Result<SequenceMatchResult, ParseError>,
) -> bool {
    let so = sample_outcome(g, sample_group, sample_set, sm);
    match r {
        Err(e) => so is Some && counted_texts(g, groups) is None,
        Ok(m) => {
            &&& m.random_barcode@ == random_outcome(g, random_group)
            &&& m.sample_barcode_error <==> so is None
            &&& so matches Some(s) ==> m.sample_barcode@ == s
            &&& so is None ==> m.sample_barcode@ == Seq::<char>::empty() && !m.counted_barcode_error
                && m.counted_barcodes@.len() == 0
            &&& so is Some ==> counted_texts(g, groups) is Some
            &&& so is Some ==> match counted_outcome(counted_texts(g, groups)->0, sets, cms) {
                None => m.counted_barcode_error && sets is Some && fails_at(
                    counted_texts(g, groups)->0,
                    sets->0,
                    cms,
                    m.counted_barcodes@.len() as int,
                    views_of(m.counted_barcodes@),
                ),
                Some(fixed) => !m.counted_barcode_error && views_of(m.counted_barcodes@) == fixed,
            }
        },
    }
}

/// The barcodes read from one matched read.
pub struct SequenceMatchResult {
    pub sample_barcode: String,
    pub counted_barcodes: Vec<String>,
    pub counted_barcode_error: bool,
    pub sample_barcode_error: bool,
    pub random_barcode: String,
}

pub open spec fn views_of(v: Seq<String>) -> Seq<Seq<char>> {
    v.map_values(|s: String| s@)
}

pub open spec fn set_views(v: Seq<BarcodeSet>) -> Seq<Set<Seq<char>>> {
    v.map_values(|s: BarcodeSet| s@)
}

impl SequenceMatchResult {
    /// Reads the windows out of the captured groups `barcodes`: the sample
    /// first, then the counted windows in order (stopping at the first that
    /// cannot be corrected), then the random window verbatim.
    pub fn new(
        barcodes: &Vec<Option<String>>,
        barcode_groups: &Vec<usize>,
        sample_group: Option<usize>,
        random_group: Option<usize>,
        barcode_seqs: &Option<Vec<BarcodeSet>>,
        counted_barcode_max_errors: &Vec<u8>,
        sample_seqs: &Option<BarcodeSet>,
        sample_seqs_max_errors: u8,
    ) -> (r: Result<SequenceMatchResult, ParseError>)
        requires
            sample_seqs matches Some(s) ==> s.wf(),
            barcode_seqs matches Some(v) ==> v@.len() == barcode_groups@.len() && forall|k: int|
                0 <= k < v@.len() ==> (#[trigger] v@[k]).wf(),
            counted_barcode_max_errors@.len() == barcode_groups@.len(),
        ensures
            describes(
                barcodes@.map_values(|o: Option<String>| opt_view(o)),
                barcode_groups@.map_values(|x: usize| x as nat),
                crate::format::opt_nat(sample_group),
                crate::format::opt_nat(random_group),
                opt_set_views(*barcode_seqs),
                counted_barcode_max_errors@,
                match sample_seqs { Some(s) => Some(s@), None => None },
                sample_seqs_max_errors as nat,
                r,
            ),
    {
        let ghost g = barcodes@.map_values(|o: Option<String>| opt_view(o));
        let ghost groups = barcode_groups@.map_values(|x: usize| x as nat);
        let mut sample_barcode_error = false;
        let mut sample_barcode = String::new();
        if let Some(gi) = sample_group {
            if gi < barcodes.len() {
                if let Some(sample_barcode_str) = &barcodes[gi] {
                    assert(group_text(g, gi as nat) == Some(sample_barcode_str@));
                    if let Some(set) = sample_seqs {
                        match correct_window(sample_barcode_str.as_str(), set, sample_seqs_max_errors) {
                            Some(fixed) => sample_barcode = fixed,
                            None => sample_barcode_error = true,
                        }
                    }
                } else {
                    assert(group_text(g, gi as nat) is None);
                }
            }
        }
        let ghost so = sample_outcome(
            g,
            crate::format::opt_nat(sample_group),
            match sample_seqs { Some(s) => Some(s@), None => None },
            sample_seqs_max_errors as nat,
        );
        assert(sample_barcode_error <==> so is None);
        assert(so matches Some(s) ==> sample_barcode@ == s);
        let mut random_barcode = String::new();
        if let Some(gi) = random_group {
            if gi < barcodes.len() {
                if let Some(text) = &barcodes[gi] {
                    assert(group_text(g, gi as nat) == Some(text@));
                    random_barcode = text.clone();
                } else {
                    assert(group_text(g, gi as nat) is None);
                }
            }
        }
        assert(random_barcode@ == random_outcome(g, crate::format::opt_nat(random_group)));
        let mut counted_barcode_error = false;
        let mut counted_barcodes: Vec<String> = Vec::new();
        if sample_barcode_error {
            return Ok(SequenceMatchResult { sample_barcode, counted_barcodes, counted_barcode_error, sample_barcode_error, random_barcode });
        }
        // Every counted window must have been reported.
        let mut k: usize = 0;
        while k < barcode_groups.len()
            invariant
                g == barcodes@.map_values(|o: Option<String>| opt_view(o)),
                groups == barcode_groups@.map_values(|x: usize| x as nat),
                so == sample_outcome(
                    g,
                    crate::format::opt_nat(sample_group),
                    match sample_seqs { Some(s) => Some(s@), None => None },
                    sample_seqs_max_errors as nat,
                ),
                so matches Some(s) && sample_barcode@ == s,
                !sample_barcode_error,
                random_barcode@ == random_outcome(g, crate::format::opt_nat(random_group)),
                k <= barcode_groups@.len(),
                forall|j: int| 0 <= j < k ==> (#[trigger] group_text(g, groups[j])) is Some,
            decreases barcode_groups@.len() - k,
        {
            let gi = barcode_groups[k];
            assert(groups[k as int] == gi as nat);
            if gi >= barcodes.len() || barcodes[gi].is_none() {
                assert(!(group_text(g, groups[k as int]) is Some));
                assert(counted_texts(g, groups) is None);
                return Err(ParseError::MissingGroup);
            }
            k = k + 1;
        }
        let ghost qs = counted_texts(g, groups)->0;
        assert(counted_texts(g, groups) is Some);
        let mut k: usize = 0;
        while k < barcode_groups.len()
            invariant
                g == barcodes@.map_values(|o: Option<String>| opt_view(o)),
                groups == barcode_groups@.map_values(|x: usize| x as nat),
                qs == counted_texts(g, groups)->0,
                so == sample_outcome(
                    g,
                    crate::format::opt_nat(sample_group),
                    match sample_seqs { Some(s) => Some(s@), None => None },
                    sample_seqs_max_errors as nat,
                ),
                so matches Some(s) && sample_barcode@ == s,
                !sample_barcode_error,
                random_barcode@ == random_outcome(g, crate::format::opt_nat(random_group)),
                counted_barcodes@.len() == k,
                qs.len() == barcode_groups@.len(),
                forall|j: int| 0 <= j < barcode_groups@.len() ==> (#[trigger] group_text(g, groups[j])) is Some,
                k <= barcode_groups@.len(),
                !counted_barcode_error,
                barcode_seqs matches Some(v) ==> v@.len() == barcode_groups@.len() && (forall|j: int|
                    0 <= j < v@.len() ==> (#[trigger] v@[j]).wf()) && fix_upto(qs, set_views(v@), counted_barcode_max_errors@, k as int) == Some(views_of(counted_barcodes@)),
                barcode_seqs is None ==> views_of(counted_barcodes@) == qs.take(k as int),
                counted_barcode_max_errors@.len() == barcode_groups@.len(),
            decreases barcode_groups@.len() - k,
        {
            let gi = barcode_groups[k];
            assert(groups[k as int] == gi as nat);
            assert(group_text(g, groups[k as int]) is Some);
            assert(gi < barcodes@.len());
            let text = match &barcodes[gi] {
                Some(t) => t,
                None => {
                    return Err(ParseError::MissingGroup);
                },
            };
            assert(qs[k as int] == text@);
            let ghost before = counted_barcodes@;
            match barcode_seqs {
                Some(sets) => {
                    match correct_window(text.as_str(), &sets[k], counted_barcode_max_errors[k]) {
                        Some(fixed) => {
                            assert(set_views(sets@)[k as int] == sets@[k as int]@);
                            counted_barcodes.push(fixed);
                            assert(views_of(counted_barcodes@) =~= views_of(before).push(counted_barcodes@[k as int]@));
                        },
                        None => {
                            assert(set_views(sets@)[k as int] == sets@[k as int]@);
                            counted_barcode_error = true;
                            proof {
                                lemma_fix_upto_stays_none(qs, set_views(sets@), counted_barcode_max_errors@, k as int + 1, qs.len() as int);
                            }
                            return Ok(SequenceMatchResult { sample_barcode, counted_barcodes, counted_barcode_error, sample_barcode_error, random_barcode });
                        },
                    }
                },
                None => {
                    counted_barcodes.push(text.clone());
                    assert(views_of(counted_barcodes@) =~= qs.take(k as int + 1));
                },
            }
            k = k + 1;
        }
        assert(qs.take(qs.len() as int) =~= qs);
        Ok(SequenceMatchResult { sample_barcode, counted_barcodes, counted_barcode_error, sample_barcode_error, random_barcode })
    }

    /// The counted barcodes joined by commas: the key of the tuple.
    pub fn barcode_string(&self) -> (r: String)
        ensures
            r@ == joined(views_of(self.counted_barcodes@)),
    {
        let mut r = String::new();
        let mut i: usize = 0;
        while i < self.counted_barcodes.len()
            invariant
                i <= self.counted_barcodes@.len(),
                r@ == joined(views_of(self.counted_barcodes@).take(i as int)),
            decreases self.counted_barcodes@.len() - i,
        {
            if i > 0 {
                r.append(",");
            }
            r.append(self.counted_barcodes[i].as_str());
            i = i + 1;
            assert(views_of(self.counted_barcodes@).take(i as int).drop_last() =~= views_of(self.counted_barcodes@).take(i - 1));
        }
        assert(views_of(self.counted_barcodes@).take(i as int) =~= views_of(self.counted_barcodes@));
        r
    }
}

/// The strings of `v` separated by commas.
pub open spec fn joined(v: Seq<Seq<char>>) -> Seq<char>
    decreases v.len(),
{
    if v.len() == 0 {
        Seq::empty()
    } else if v.len() == 1 {
        v[0]
    } else {
        joined(v.drop_last()) + ","@ + v.last()
    }
}

proof fn lemma_fix_upto_stays_none(qs: Seq<Seq<char>>, sets: Seq<Set<Seq<char>>>, ms: Seq<u8>, a: int, b: int)
    requires
        1 <= a <= b,
        fix_upto(qs, sets, ms, a) is None,
    ensures
        fix_upto(qs, sets, ms, b) is None,
    decreases b - a,
{
    if a < b {
        lemma_fix_upto_stays_none(qs, sets, ms, a, b - 1);
    }
}

/// How a read ended up: rejected at one of the three checks, or matched.
pub enum ReadOutcome {
    ConstantRegion,
    SampleBarcode,
    CountedBarcode,
    Matched(SequenceMatchResult),
}

/// The outcome that a match result stands for.
pub open spec fn outcome_of(m: Result<SequenceMatchResult, ParseError>) -> Result<ReadOutcome, ParseError> {
    match m {
        Err(e) => Err(e),
        Ok(m) => if m.sample_barcode_error {
            Ok(ReadOutcome::SampleBarcode)
        } else if m.counted_barcode_error {
            Ok(ReadOutcome::CountedBarcode)
        } else {
            Ok(ReadOutcome::Matched(m))
        },
    }
}

/// The keys of a dictionary given as (barcode, identifier) pairs.
pub open spec fn dict_keys(d: Seq<(String, String)>) -> Set<Seq<char>> {
    Set::new(|k: Seq<char>| exists|i: int| 0 <= i < d.len() && d[i].0@ == k)
}

/// All barcodes of a dictionary have one length.
pub fn uniform_lengths(dict: &Vec<(String, String)>) -> (r: bool)
    ensures
        r <==> forall|i: int, j: int| 0 <= i < dict@.len() && 0 <= j < dict@.len() ==> dict@[i].0@.len() == dict@[j].0@.len(),
{
    if dict.len() == 0 {
        return true;
    }
    let first = dict[0].0.as_str().unicode_len();
    let mut i: usize = 1;
    while i < dict.len()
        invariant
            1 <= i <= dict@.len(),
            first == dict@[0].0@.len(),
            forall|j: int| 0 <= j < i ==> dict@[j].0@.len() == first,
        decreases dict@.len() - i,
    {
        if dict[i].0.as_str().unicode_len() != first {
            return false;
        }
        i = i + 1;
    }
    true
}

/// Builds the set of a dictionary's barcodes.
fn key_set(dict: &Vec<(String, String)>) -> (r: BarcodeSet)
    ensures
        r.wf(),
        r@ == dict_keys(dict@),
{
    let mut set = BarcodeSet::new();
    let mut i: usize = 0;
    while i < dict.len()
        invariant
            i <= dict@.len(),
            set.wf(),
            set@ == dict_keys(dict@.take(i as int)),
        decreases dict@.len() - i,
    {
        let ghost before = set@;
        set.insert(dict[i].0.clone());
        i = i + 1;
        assert forall|k: Seq<char>| set@.contains(k) <==> dict_keys(dict@.take(i as int)).contains(k) by {
            if k == dict@[i - 1].0@ {
                assert(dict@.take(i as int)[i - 1].0@ == k);
            }
            if dict_keys(dict@.take(i as int)).contains(k) && k != dict@[i - 1].0@ {
                let j = choose|j: int| 0 <= j < i && (#[trigger] dict@.take(i as int)[j]).0@ == k;
                assert(dict@.take(i - 1)[j].0@ == k);
            }
            if before.contains(k) {
                let j = choose|j: int| 0 <= j < i - 1 && (#[trigger] dict@.take(i - 1)[j]).0@ == k;
                assert(dict@.take(i as int)[j].0@ == k);
            }
        }
        assert(set@ =~= dict_keys(dict@.take(i as int)));
    }
    assert(dict@.take(dict@.len() as int) =~= dict@);
    set
}

/// Matches reads against one format with fixed dictionaries and budgets.
pub struct SequenceParser {
    sequence_format: SequenceFormat,
    samples: Option<Vec<(String, String)>>,
    barcodes: Option<Vec<Vec<(String, String)>>>,
    max_errors: MaxSeqErrors,
    sample_seqs: Option<BarcodeSet>,
    barcode_seqs: Option<Vec<BarcodeSet>>,
}

impl SequenceParser {
    pub closed spec fn wf(&self) -> bool {
        &&& self.sequence_format.wf()
        &&& self.max_errors.barcode@.len() == self.sequence_format.counted_groups_spec().len()
        &&& self.sample_seqs matches Some(s) ==> s.wf()
        &&& self.barcode_seqs matches Some(v) ==> v@.len() == self.max_errors.barcode@.len()
            && forall|k: int| 0 <= k < v@.len() ==> (#[trigger] v@[k]).wf()
        &&& self.samples is Some <==> self.sample_seqs is Some
        &&& self.samples matches Some(d) ==> self.sample_seqs->0@ == dict_keys(d@)
        &&& self.barcodes is Some <==> self.barcode_seqs is Some
        &&& self.barcodes matches Some(d) ==> d@.len() == self.barcode_seqs->0@.len()
            && forall|k: int| 0 <= k < d@.len() ==> #[trigger] self.barcode_seqs->0@[k]@ == dict_keys(d@[k]@)
    }

    pub closed spec fn format(&self) -> SequenceFormat {
        self.sequence_format
    }

    /// The sample barcodes, if a sample dictionary was given.
    pub closed spec fn sample_keys(&self) -> Option<Set<Seq<char>>> {
        match self.sample_seqs {
            Some(s) => Some(s@),
            None => None,
        }
    }

    /// The barcodes of each counted window, if a dictionary was given.
    pub closed spec fn barcode_keys(&self) -> Option<Seq<Set<Seq<char>>>> {
        opt_set_views(self.barcode_seqs)
    }

    pub closed spec fn budgets(&self) -> MaxSeqErrors {
        self.max_errors
    }

    /// A parser for `sequence_format`, correcting the sample window against
    /// the barcodes of `samples` and counted window `k` against those of
    /// `barcodes[k]`.
    pub fn new(
        sequence_format: SequenceFormat,
        samples: Option<Vec<(String, String)>>,
        barcodes: Option<Vec<Vec<(String, String)>>>,
        max_errors: MaxSeqErrors,
    ) -> (r: SequenceParser)
        requires
            sequence_format.wf(),
            max_errors.barcode@.len() == sequence_format.counted_groups_spec().len(),
            barcodes matches Some(v) ==> v@.len() == max_errors.barcode@.len(),
        ensures
            r.wf(),
            r.format() == sequence_format,
            r.budgets() == max_errors,
            r.sample_keys() == match samples { Some(d) => Some(dict_keys(d@)), None => None::<Set<Seq<char>>> },
            r.barcode_keys() matches Some(v) ==> barcodes is Some && v.len() == barcodes->0@.len()
                && forall|k: int| 0 <= k < v.len() ==> #[trigger] v[k] == dict_keys(barcodes->0@[k]@),
            r.barcode_keys() is None <==> barcodes is None,
    {
        let mut parser = SequenceParser {
            sequence_format,
            samples,
            barcodes,
            max_errors,
            sample_seqs: None,
            barcode_seqs: None,
        };
        parser.get_sample_seqs();
        parser.get_barcode_seqs();
        parser
    }

    fn get_sample_seqs(&mut self)
        ensures
            final(self).sample_seqs matches Some(s) ==> s.wf(),
            final(self).samples == old(self).samples,
            final(self).samples is Some <==> final(self).sample_seqs is Some,
            final(self).samples matches Some(d) ==> final(self).sample_seqs->0@ == dict_keys(d@),
            final(self).sequence_format == old(self).sequence_format,
            final(self).barcodes == old(self).barcodes,
            final(self).barcode_seqs == old(self).barcode_seqs,
            final(self).max_errors == old(self).max_errors,
    {
        if let Some(samples) = &self.samples {
            let set = key_set(samples);
            self.sample_seqs = Some(set);
        } else {
            self.sample_seqs = None;
        }
    }

    fn get_barcode_seqs(&mut self)
        ensures
            final(self).barcodes == old(self).barcodes,
            final(self).barcodes is Some <==> final(self).barcode_seqs is Some,
            final(self).barcodes matches Some(d) ==> d@.len() == final(self).barcode_seqs->0@.len()
                && (forall|k: int| 0 <= k < d@.len() ==> (#[trigger] final(self).barcode_seqs->0@[k]).wf())
                && forall|k: int| 0 <= k < d@.len() ==> #[trigger] final(self).barcode_seqs->0@[k]@ == dict_keys(d@[k]@),
            final(self).sequence_format == old(self).sequence_format,
            final(self).samples == old(self).samples,
            final(self).sample_seqs == old(self).sample_seqs,
            final(self).max_errors == old(self).max_errors,
    {
        if let Some(barcodes) = &self.barcodes {
            let mut sets: Vec<BarcodeSet> = Vec::new();
            let mut k: usize = 0;
            while k < barcodes.len()
                invariant
                    k <= barcodes@.len(),
                    sets@.len() == k,
                    forall|j: int| 0 <= j < k ==> (#[trigger] sets@[j]).wf() && sets@[j]@ == dict_keys(barcodes@[j]@),
                decreases barcodes@.len() - k,
            {
                let set = key_set(&barcodes[k]);
                sets.push(set);
                k = k + 1;
            }
            self.barcode_seqs = Some(sets);
        } else {
            self.barcode_seqs = None;
        }
    }

    /// The text that is matched: the read itself when the pattern matches
    /// it, else the read after constant-region repair.
    pub open spec fn matched_text(&self, read: Seq<char>) -> Seq<char> {
        if captured_groups(self.format().pattern_text(), read) is Some {
            read
        } else {
            fixed_read(read, skeleton(self.format().layout()), self.budgets().constant_region as nat)
        }
    }

    /// `r` is what matching `read` gives: a constant-region error when the
    /// pattern finds nothing even after repair, else the outcome of reading
    /// the captured windows.
    pub open spec fn reads_as(&self, read: Seq<char>, r: Result<ReadOutcome, ParseError>) -> bool {
        match captured_groups(self.format().pattern_text(), self.matched_text(read)) {
            None => r matches Ok(ReadOutcome::ConstantRegion),
            Some(g) => exists|m: Result<SequenceMatchResult, ParseError>| #[trigger] describes(
                g,
                counted_groups(self.format().layout()),
                sample_group(self.format().layout()),
                random_group(self.format().layout()),
                self.barcode_keys(),
                self.budgets().barcode@,
                self.sample_keys(),
                self.budgets().sample_barcode as nat,
                m,
            ) && r == outcome_of(m),
        }
    }

    fn check_and_fix_consant_region(&self, raw_sequence: &mut RawSequence)
        requires
            self.wf(),
        ensures
            final(raw_sequence).sequence@ == self.matched_text(old(raw_sequence).sequence@),
    {
        if !self.sequence_format.is_match(raw_sequence.sequence.as_str()) {
            raw_sequence.fix_constant_region(
                self.sequence_format.format_string(),
                self.max_errors.constant_region,
            );
        }
    }

    /// Finds the template in `sequence` (repairing its constant regions when
    /// needed) and reads its windows.
    pub fn match_seq(&self, sequence: String) -> (r: Result<ReadOutcome, ParseError>)
        requires
            self.wf(),
        ensures
            self.reads_as(sequence@, r),
    {
        let mut raw_sequence = RawSequence::new(sequence);
        self.check_and_fix_consant_region(&mut raw_sequence);
        match self.sequence_format.captures(raw_sequence.sequence.as_str()) {
            None => Ok(ReadOutcome::ConstantRegion),
            Some(barcodes) => {
                let m = SequenceMatchResult::new(
                    &barcodes,
                    self.sequence_format.counted_groups(),
                    self.sequence_format.sample_group(),
                    self.sequence_format.random_group(),
                    &self.barcode_seqs,
                    &self.max_errors.barcode,
                    &self.sample_seqs,
                    self.max_errors.sample_barcode,
                );
                let ghost gm = m;
                assert(describes(
                    captured_groups(self.format().pattern_text(), self.matched_text(sequence@))->0,
                    counted_groups(self.format().layout()),
                    sample_group(self.format().layout()),
                    random_group(self.format().layout()),
                    self.barcode_keys(),
                    self.budgets().barcode@,
                    self.sample_keys(),
                    self.budgets().sample_barcode as nat,
                    gm,
                ));
                let r = match m {
                    Err(e) => Err(e),
                    Ok(m) => if m.sample_barcode_error {
                        Ok(ReadOutcome::SampleBarcode)
                    } else if m.counted_barcode_error {
                        Ok(ReadOutcome::CountedBarcode)
                    } else {
                        Ok(ReadOutcome::Matched(m))
                    },
                };
                assert(r == outcome_of(gm));
                r
            },
        }
    }
}

/// Everything a run has counted: the store and the counters.
pub struct Totals {
    pub results: Results,
    pub errors: SequenceErrors,
}

/// The counter that an outcome lands in, given whether a random barcode
/// was new (ignored for other outcomes).
pub open spec fn kind_of(o: ReadOutcome, new_umi: bool) -> ReadKind {
    match o {
        ReadOutcome::ConstantRegion => ReadKind::ConstantRegion,
        ReadOutcome::SampleBarcode => ReadKind::SampleBarcode,
        ReadOutcome::CountedBarcode => ReadKind::CountedBarcode,
        ReadOutcome::Matched(m) => if m.random_barcode@.len() == 0 || new_umi {
            ReadKind::Correct
        } else {
            ReadKind::Duplicated
        },
    }
}

/// A read whose sample window is accepted but one of whose counted windows
/// has no correction is billed to the counted-barcode counter alone and
/// adds nothing to the store.
pub proof fn lemma_counted_failure_not_counted(
    p: SequenceParser,
    read: Seq<char>,
    outcome: ReadOutcome,
    before: Totals,
    after: Totals,
    k: ReadKind,
)
    requires
        p.reads_as(read, Ok(outcome)),
        records(before, after, outcome, k),
        captured_groups(p.format().pattern_text(), p.matched_text(read)) matches Some(g) && {
            let groups = counted_groups(p.format().layout());
            &&& sample_outcome(g, sample_group(p.format().layout()), p.sample_keys(), p.budgets().sample_barcode as nat) is Some
            &&& counted_texts(g, groups) is Some
            &&& counted_outcome(counted_texts(g, groups)->0, p.barcode_keys(), p.budgets().barcode@) is None
        },
    ensures
        k == ReadKind::CountedBarcode,
        after.results.view() == before.results.view(),
        after.errors == before.errors.after(ReadKind::CountedBarcode),
{
    let g = captured_groups(p.format().pattern_text(), p.matched_text(read))->0;
    let m = choose|m: Result<SequenceMatchResult, ParseError>| #[trigger] describes(
        g,
        counted_groups(p.format().layout()),
        sample_group(p.format().layout()),
        random_group(p.format().layout()),
        p.barcode_keys(),
        p.budgets().barcode@,
        p.sample_keys(),
        p.budgets().sample_barcode as nat,
        m,
    ) && outcome_of(m) == Ok::<ReadOutcome, ParseError>(outcome);
    assert(m is Ok);
}

/// `after` is `before` with `outcome` counted as a read of kind `k`.
pub open spec fn records(before: Totals, after: Totals, outcome: ReadOutcome, k: ReadKind) -> bool {
    &&& after.results.wf()
    &&& after.errors == before.errors.after(k)
    &&& after.errors.total() == before.errors.total() + 1
    &&& match outcome {
        ReadOutcome::Matched(m) => {
            let s = m.sample_barcode@;
            let t = joined(views_of(m.counted_barcodes@));
            let u = m.random_barcode@;
            &&& after.results.view() == store_step(before.results.view(), s, t, u)
            &&& k == kind_of(outcome, !before.results.tally(s, t).umis.contains(u))
        },
        _ => after.results.view() == before.results.view() && k == kind_of(outcome, false),
    }
}

impl Totals {
    pub fn new() -> (r: Totals)
        ensures
            r.results.wf(),
            r.results.view() == Map::<Seq<char>, Map<Seq<char>, TallyModel>>::empty(),
            r.errors.total() == 0,
    {
        Totals { results: Results::new(), errors: SequenceErrors::new() }
    }

    /// Counts one read: a matched one goes into the store under its sample
    /// and comma-joined tuple (once per UMI when it has a random barcode),
    /// and every read into exactly one counter.
    pub fn record(&mut self, outcome: ReadOutcome) -> (k: ReadKind)
        requires
            old(self).results.wf(),
            old(self).errors.total() < u64::MAX,
        ensures
            records(*old(self), *final(self), outcome, k),
    {
        let k = match outcome {
            ReadOutcome::ConstantRegion => ReadKind::ConstantRegion,
            ReadOutcome::SampleBarcode => ReadKind::SampleBarcode,
            ReadOutcome::CountedBarcode => ReadKind::CountedBarcode,
            ReadOutcome::Matched(m) => {
                let barcode_string = m.barcode_string();
                if m.random_barcode.as_str().is_empty() {
                    self.results.add_count(m.sample_barcode.as_str(), barcode_string.as_str());
                    ReadKind::Correct
                } else {
                    let added = self.results.add_random(
                        m.sample_barcode.as_str(),
                        m.random_barcode.as_str(),
                        barcode_string.as_str(),
                    );
                    if added {
                        ReadKind::Correct
                    } else {
                        ReadKind::Duplicated
                    }
                }
            },
        };
        self.errors.record(k);
        k
    }
}

impl SequenceParser {
    /// Matches one read and counts it in `totals`.
    pub fn parse(&self, sequence: String, totals: &mut Totals) -> (r: Result<ReadKind, ParseError>)
        requires
            self.wf(),
            old(totals).results.wf(),
            old(totals).errors.total() < u64::MAX,
        ensures
            final(totals).results.wf(),
            r is Ok ==> final(totals).errors.total() == old(totals).errors.total() + 1,
            r is Err ==> *final(totals) == *old(totals),
            exists|o: Result<ReadOutcome, ParseError>| #[trigger] self.reads_as(sequence@, o) && match o {
                Ok(outcome) => r matches Ok(k) && records(*old(totals), *final(totals), outcome, k),
                Err(e) => r == Err::<ReadKind, ParseError>(e) && *final(totals) == *old(totals),
            },
    {
        let ghost read = sequence@;
        let m = self.match_seq(sequence);
        let ghost gm = m;
        match m {
            Ok(outcome) => {
                let k = totals.record(outcome);
                assert(self.reads_as(read, gm));
                Ok(k)
            },
            Err(e) => {
                assert(self.reads_as(read, gm));
                Err(e)
            },
        }
    }

    /// Matches and counts each read in turn, as one worker draining its
    /// queue does; stops at the first fault of the matcher. Every read
    /// handled lands in exactly one counter.
    pub fn parse_reads(&self, reads: &Vec<String>, totals: &mut Totals) -> (r: Result<(), ParseError>)
        requires
            self.wf(),
            old(totals).results.wf(),
            old(totals).errors.total() + reads@.len() < u64::MAX,
        ensures
            final(totals).results.wf(),
            r is Ok ==> final(totals).errors.total() == old(totals).errors.total() + reads@.len(),
            r is Err ==> final(totals).errors.total() < old(totals).errors.total() + reads@.len(),
    {
        let mut i: usize = 0;
        while i < reads.len()
            invariant
                self.wf(),
                i <= reads@.len(),
                totals.results.wf(),
                totals.errors.total() == old(totals).errors.total() + i,
                old(totals).errors.total() + reads@.len() < u64::MAX,
            decreases reads@.len() - i,
        {
            match self.parse(reads[i].clone(), totals) {
                Ok(_) => {},
                Err(e) => {
                    return Err(e);
                },
            }
            i = i + 1;
        }
        Ok(())
    }
}

} // verus!
