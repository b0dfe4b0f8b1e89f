//! A read awaiting parsing, and the repair of its constant regions against
//! the template skeleton.
use vstd::prelude::*;
use crate::text::{chars_of, push_char};
use crate::correct::{correction_of, fix_error, views, lemma_views_push};

verus! {

broadcast use vstd::string::group_string_axioms;

/// The skeleton's constants, with the window positions (`N` in the
/// skeleton) taken from `best`; as long as the shorter of the two.
pub open spec fn repaired(format: Seq<char>, best: Seq<char>) -> Seq<char> {
    Seq::new(
        if format.len() <= best.len() { format.len() } else { best.len() },
        |i: int| if format[i] == 'N' { best[i] } else { format[i] },
    )
}

/// The substrings of `read` as long as `format`, by offset, from offset 0
/// to the last that fits.
pub open spec fn offset_windows(read: Seq<char>, format: Seq<char>) -> Seq<Seq<char>> {
    if read.len() < format.len() {
        Seq::empty()
    } else {
        Seq::new(
            (read.len() - format.len() + 1) as nat,
            |i: int| read.subrange(i, i + format.len()),
        )
    }
}

/// The read after constant-region repair: the repaired best window, or empty
/// when no window is strictly best within the budget.
pub open spec fn fixed_read(read: Seq<char>, format: Seq<char>, m: nat) -> Seq<char> {
    match correction_of(format, offset_windows(read, format), m) {
        Some(best) => repaired(format, best),
        None => Seq::empty(),
    }
}

pub struct RawSequence {
    pub sequence: String,
}

impl RawSequence {
    pub fn new(sequence: String) -> (r: RawSequence)
        ensures
            r.sequence@ == sequence@,
    {
        RawSequence { sequence }
    }

    /// Replaces the sequence with the skeleton's constants, keeping the
    /// characters of `best_sequence` at the window positions.
    pub fn insert_barcodes_constant_region(&mut self, format_string: &str, best_sequence: String)
        ensures
            final(self).sequence@ == repaired(format_string@, best_sequence@),
    {
        let best = chars_of(best_sequence.as_str());
        let format = chars_of(format_string);
        let n: usize = if format.len() <= best.len() { format.len() } else { best.len() };
        let mut fixed_sequence = String::new();
        let mut i: usize = 0;
        while i < n
            invariant
                best@ == best_sequence@,
                format@ == format_string@,
                n == (if format@.len() <= best@.len() { format@.len() } else { best@.len() }),
                i <= n,
                fixed_sequence@ == repaired(format_string@, best_sequence@).take(i as int),
            decreases n - i,
        {
            if format[i] == 'N' {
                push_char(&mut fixed_sequence, best[i]);
            } else {
                push_char(&mut fixed_sequence, format[i]);
            }
            i = i + 1;
            assert(fixed_sequence@ =~= repaired(format_string@, best_sequence@).take(i as int));
        }
        assert(fixed_sequence@ =~= repaired(format_string@, best_sequence@));
        self.sequence = fixed_sequence;
    }

    /// Locates the template in the read with at most `max_constant_errors`
    /// constant-region mismatches and repairs it; empties the read when no
    /// offset is strictly best.
    pub fn fix_constant_region(&mut self, format_string: &str, max_constant_errors: u8)
        ensures
            final(self).sequence@ == fixed_read(
                old(self).sequence@,
                format_string@,
                max_constant_errors as nat,
            ),
    {
        let ghost read = self.sequence@;
        let ghost format = format_string@;
        let seq_len = self.sequence.as_str().unicode_len();
        let format_len = format_string.unicode_len();
        let mut possible_seqs: Vec<String> = Vec::new();
        if seq_len >= format_len {
            let length_diff = seq_len - format_len;
            let mut index: usize = 0;
            while index < length_diff
                invariant
                    read == self.sequence@,
                    seq_len == read.len(),
                    format_len == format.len(),
                    length_diff == seq_len - format_len,
                    index <= length_diff,
                    views(possible_seqs@) == offset_windows(read, format).take(index as int),
                decreases length_diff - index,
            {
                let window = self.sequence.as_str().substring_char(index, index + format_len);
                let possible_seq = window.to_owned();
                assert(possible_seq@ == offset_windows(read, format)[index as int]);
                proof {
                    lemma_views_push(possible_seqs@, possible_seq);
                }
                possible_seqs.push(possible_seq);
                index = index + 1;
                assert(views(possible_seqs@) =~= offset_windows(read, format).take(index as int));
            }
            let window = self.sequence.as_str().substring_char(length_diff, seq_len);
            let possible_seq = window.to_owned();
            assert(possible_seq@ == offset_windows(read, format)[length_diff as int]);
            proof {
                lemma_views_push(possible_seqs@, possible_seq);
            }
            possible_seqs.push(possible_seq);
            assert(views(possible_seqs@) =~= offset_windows(read, format));
        } else {
            assert(views(possible_seqs@) =~= offset_windows(read, format));
        }
        let best_sequence_option = fix_error(format_string, possible_seqs.as_slice(), max_constant_errors);
        match best_sequence_option {
            Some(best_sequence) => {
                self.insert_barcodes_constant_region(format_string, best_sequence);
            },
            None => {
                self.sequence = String::new();
                assert(self.sequence@ =~= Seq::<char>::empty());
            },
        }
    }
}

/// After repair, every window position of the skeleton holds the character
/// that the chosen offset window has there, and every constant position
/// holds the skeleton's constant.
pub proof fn lemma_repair_preserves_windows(read: Seq<char>, format: Seq<char>, m: nat)
    requires
        fixed_read(read, format, m).len() > 0,
    ensures
        exists|off: int|
            0 <= off && off + format.len() <= read.len() && Some(#[trigger] read.subrange(off, off + format.len()))
                == correction_of(format, offset_windows(read, format), m) && {
                let fixed = fixed_read(read, format, m);
                &&& fixed.len() == format.len()
                &&& forall|p: int|
                    0 <= p < format.len() ==> #[trigger] fixed[p] == if format[p] == 'N' {
                        read[off + p]
                    } else {
                        format[p]
                    }
            },
{
    let ws = offset_windows(read, format);
    let i = choose|i: int| crate::correct::is_unique_best(format, ws, m, i);
    assert(read.len() >= format.len());
    assert(ws[i] == read.subrange(i, i + format.len()));
    let fixed = fixed_read(read, format, m);
    assert forall|p: int| 0 <= p < format.len() implies #[trigger] fixed[p] == if format[p] == 'N' {
        read[i + p]
    } else {
        format[p]
    } by {}
}

} // verus!
