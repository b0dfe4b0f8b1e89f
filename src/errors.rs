//! Counters of how each read ended.
use vstd::prelude::*;

verus! {

/// How one read ended.
#[derive(Clone, Copy, Debug, PartialEq, Eq, Structural)]
pub enum ReadKind {
    Correct,
    ConstantRegion,
    SampleBarcode,
    CountedBarcode,
    Duplicated,
}

/// One counter per way a read can end.
#[derive(Clone, Copy, Debug, PartialEq, Eq, Structural)]
pub struct SequenceErrors {
    pub correct_match: u64,
    pub constant_region: u64,
    pub sample_barcode: u64,
    pub barcode: u64,
    pub duplicated: u64,
}

impl SequenceErrors {
    pub open spec fn total(&self) -> nat {
        self.correct_match as nat + self.constant_region as nat + self.sample_barcode as nat
            + self.barcode as nat + self.duplicated as nat
    }

    /// The counters after one more read of kind `k`.
    pub open spec fn after(&self, k: ReadKind) -> SequenceErrors {
        match k {
            ReadKind::Correct => SequenceErrors { correct_match: (self.correct_match + 1) as u64, ..*self },
            ReadKind::ConstantRegion => SequenceErrors { constant_region: (self.constant_region + 1) as u64, ..*self },
            ReadKind::SampleBarcode => SequenceErrors { sample_barcode: (self.sample_barcode + 1) as u64, ..*self },
            ReadKind::CountedBarcode => SequenceErrors { barcode: (self.barcode + 1) as u64, ..*self },
            ReadKind::Duplicated => SequenceErrors { duplicated: (self.duplicated + 1) as u64, ..*self },
        }
    }

    pub fn new() -> (r: SequenceErrors)
        ensures
            r.total() == 0,
            r == (SequenceErrors { correct_match: 0, constant_region: 0, sample_barcode: 0, barcode: 0, duplicated: 0 }),
    {
        SequenceErrors { correct_match: 0, constant_region: 0, sample_barcode: 0, barcode: 0, duplicated: 0 }
    }

    /// Counts one read of kind `k`.
    pub fn record(&mut self, k: ReadKind)
        requires
            old(self).total() < u64::MAX,
        ensures
            *final(self) == old(self).after(k),
            final(self).total() == old(self).total() + 1,
    {
        match k {
            ReadKind::Correct => self.correct_match = self.correct_match + 1,
            ReadKind::ConstantRegion => self.constant_region = self.constant_region + 1,
            ReadKind::SampleBarcode => self.sample_barcode = self.sample_barcode + 1,
            ReadKind::CountedBarcode => self.barcode = self.barcode + 1,
            ReadKind::Duplicated => self.duplicated = self.duplicated + 1,
        }
    }

    /// The sum of all counters: the number of reads recorded.
    pub fn total_reads(&self) -> (r: u64)
        requires
            self.total() <= u64::MAX,
        ensures
            r == self.total(),
    {
        self.correct_match + self.constant_region + self.sample_barcode + self.barcode + self.duplicated
    }
}

/// The counters after recording `ks` in order, from `e`.
pub open spec fn after_all(e: SequenceErrors, ks: Seq<ReadKind>) -> SequenceErrors
    decreases ks.len(),
{
    if ks.len() == 0 {
        e
    } else {
        after_all(e, ks.drop_last()).after(ks.last())
    }
}

/// Every read lands in exactly one counter: from zero counters, recording
/// any sequence of reads leaves a total equal to the number of reads.
pub proof fn lemma_conservation(ks: Seq<ReadKind>)
    requires
        ks.len() < u64::MAX,
    ensures
        after_all(SequenceErrors { correct_match: 0, constant_region: 0, sample_barcode: 0, barcode: 0, duplicated: 0 }, ks).total()
            == ks.len(),
    decreases ks.len(),
{
    if ks.len() > 0 {
        lemma_conservation(ks.drop_last());
    }
}

} // verus!
