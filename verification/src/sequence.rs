//! Sequence continuity. Every record of a feed carries the number after that
//! of the record before it; a tracker remembers which number is due and
//! reports each record that carries another.
use crate::f6::F6;
use vstd::prelude::*;

verus! {

/// A break in the sequence: `expected` was due and `observed` came.
#[derive(Debug, PartialEq, Eq, Clone, Copy)]
pub struct SequenceGap {
    pub expected: u64,
    pub observed: u64,
}

/// The number that is due after `observed`; none after the largest number.
pub open spec fn due_after(observed: u64) -> Option<u64> {
    if observed < u64::MAX {
        Some((observed + 1) as u64)
    } else {
        None
    }
}

/// The gap that `observed` makes where `expected` holds the number due.
/// Before the first record nothing is due, and nothing is a gap.
pub open spec fn gap_between(expected: Option<u64>, observed: u64) -> Option<SequenceGap> {
    match expected {
        Some(due) => if due != observed {
            Some(SequenceGap { expected: due, observed })
        } else {
            None
        },
        None => None,
    }
}

/// The gaps in a run of sequence numbers, in order, where `expected` holds
/// the number due before the first of them. After each number, gap or not,
/// its successor is due.
pub open spec fn gaps_in(expected: Option<u64>, numbers: Seq<u64>) -> Seq<SequenceGap>
    decreases numbers.len(),
{
    if numbers.len() == 0 {
        Seq::empty()
    } else {
        let rest = gaps_in(due_after(numbers[0]), numbers.skip(1));
        match gap_between(expected, numbers[0]) {
            Some(gap) => seq![gap] + rest,
            None => rest,
        }
    }
}

/// The number due after a run of sequence numbers.
pub open spec fn due_after_all(expected: Option<u64>, numbers: Seq<u64>) -> Option<u64> {
    if numbers.len() == 0 {
        expected
    } else {
        due_after(numbers.last())
    }
}

/// The sequence numbers of a run of records.
pub open spec fn sequence_numbers(records: Seq<F6>) -> Seq<u64> {
    Seq::new(records.len(), |i: int| records[i].header.no)
}

/// The number that the next record of a feed should carry, once a first
/// record has been seen.
#[derive(Debug, PartialEq, Eq, Clone, Copy)]
pub struct SequenceTracker {
    pub expected: Option<u64>,
}

impl SequenceTracker {
    /// A tracker that has seen no record yet.
    pub fn new() -> (tracker: SequenceTracker)
        ensures
            tracker.expected is None,
    {
        SequenceTracker { expected: None }
    }

    /// Takes note of the next record's sequence number and reports the gap,
    /// if it makes one. Whatever was due, the successor of `observed` is due
    /// afterwards.
    pub fn observe(&mut self, observed: u64) -> (gap: Option<SequenceGap>)
        ensures
            gap == gap_between(old(self).expected, observed),
            final(self).expected == due_after(observed),
    {
        let gap = match self.expected {
            Some(due) => if due != observed {
                Some(SequenceGap { expected: due, observed })
            } else {
                None
            },
            None => None,
        };
        self.expected = observed.checked_add(1);
        gap
    }

    /// Takes note of a run of records, in order, and returns the gaps found.
    pub fn observe_records(&mut self, records: &[F6]) -> (gaps: Vec<SequenceGap>)
        ensures
            gaps@ == gaps_in(old(self).expected, sequence_numbers(records@)),
            final(self).expected == due_after_all(
                old(self).expected,
                sequence_numbers(records@),
            ),
    {
        let ghost numbers = sequence_numbers(records@);
        let mut gaps: Vec<SequenceGap> = Vec::new();
        let mut i: usize = 0;
        assert(numbers.skip(0) =~= numbers);
        while i < records.len()
            invariant
                i <= records.len(),
                numbers == sequence_numbers(records@),
                gaps_in(old(self).expected, numbers) == gaps@ + gaps_in(
                    self.expected,
                    numbers.skip(i as int),
                ),
                self.expected == due_after_all(old(self).expected, numbers.take(i as int)),
            decreases records.len() - i,
        {
            let ghost before = gaps@;
            let ghost due = self.expected;
            let ghost rest = numbers.skip(i as int);
            let observed = records[i].header.no;
            assert(rest[0] == observed);
            assert(rest.skip(1) =~= numbers.skip(i + 1));
            assert(numbers.take(i + 1).last() == observed);
            match self.observe(observed) {
                Some(gap) => {
                    gaps.push(gap);
                    proof {
                        let tail = gaps_in(self.expected, numbers.skip(i + 1));
                        assert(gaps_in(due, rest) == seq![gap] + tail);
                        assert(before + (seq![gap] + tail) =~= before.push(gap) + tail);
                    }
                },
                None => {},
            }
            i += 1;
        }
        proof {
            assert(numbers.skip(i as int) =~= Seq::<u64>::empty());
            assert(numbers.take(i as int) =~= numbers);
            assert(gaps@ + Seq::<SequenceGap>::empty() =~= gaps@);
        }
        gaps
    }
}

/// A run of numbers in which each is the successor of the one before has no
/// gap, if its first number is the one due or nothing was due.
pub proof fn lemma_consecutive_numbers_have_no_gap(expected: Option<u64>, numbers: Seq<u64>)
    requires
        numbers.len() > 0 ==> expected is None || expected == Some(numbers[0]),
        forall|i: int| 0 <= i < numbers.len() - 1 ==> numbers[i] + 1 == #[trigger] numbers[i + 1],
    ensures
        gaps_in(expected, numbers) == Seq::<SequenceGap>::empty(),
    decreases numbers.len(),
{
    if numbers.len() > 0 {
        let rest = numbers.skip(1);
        if rest.len() > 0 {
            assert(numbers[0] + 1 == numbers[0int + 1]);
            assert(rest[0] == numbers[1]);
        }
        assert forall|i: int| 0 <= i < rest.len() - 1 implies rest[i] + 1 == #[trigger] rest[i
            + 1] by {
            assert(numbers[(i + 1)] + 1 == numbers[(i + 1) + 1]);
        }
        lemma_consecutive_numbers_have_no_gap(due_after(numbers[0]), rest);
    }
}

/// One missing stretch in an otherwise consecutive run makes exactly one
/// gap: the number due after the last record before the stretch, against
/// the first number after it.
pub proof fn lemma_one_jump_makes_one_gap(before: Seq<u64>, after: Seq<u64>)
    requires
        before.len() > 0,
        after.len() > 0,
        before.last() < u64::MAX,
        after[0] != before.last() + 1,
        forall|i: int| 0 <= i < before.len() - 1 ==> before[i] + 1 == #[trigger] before[i + 1],
        forall|i: int| 0 <= i < after.len() - 1 ==> after[i] + 1 == #[trigger] after[i + 1],
    ensures
        gaps_in(None, before + after) == seq![
            SequenceGap { expected: (before.last() + 1) as u64, observed: after[0] },
        ],
{
    lemma_gaps_concat(None, before, after);
    lemma_consecutive_numbers_have_no_gap(None, before);
    let due = due_after_all(None, before);
    let rest = after.skip(1);
    if rest.len() > 0 {
        assert(after[0] + 1 == after[0int + 1]);
        assert(rest[0] == after[1]);
    }
    assert forall|i: int| 0 <= i < rest.len() - 1 implies rest[i] + 1 == #[trigger] rest[i
        + 1] by {
        assert(after[(i + 1)] + 1 == after[(i + 1) + 1]);
    }
    lemma_consecutive_numbers_have_no_gap(due_after(after[0]), rest);
    assert(gaps_in(due, after) =~= seq![
        SequenceGap { expected: (before.last() + 1) as u64, observed: after[0] },
    ]);
}

/// Tracking a run in two parts finds the same gaps as tracking it whole.
pub proof fn lemma_gaps_concat(expected: Option<u64>, first: Seq<u64>, second: Seq<u64>)
    ensures
        gaps_in(expected, first + second) == gaps_in(expected, first) + gaps_in(
            due_after_all(expected, first),
            second,
        ),
    decreases first.len(),
{
    if first.len() == 0 {
        assert(first + second =~= second);
        assert(gaps_in(expected, first) + gaps_in(expected, second) =~= gaps_in(
            expected,
            second,
        ));
    } else {
        let whole = first + second;
        assert(whole[0] == first[0]);
        assert(whole.skip(1) =~= first.skip(1) + second);
        lemma_gaps_concat(due_after(first[0]), first.skip(1), second);
        if first.len() > 1 {
            assert(first.skip(1).last() == first.last());
        }
        let tail_first = gaps_in(due_after(first[0]), first.skip(1));
        let tail_second = gaps_in(due_after_all(expected, first), second);
        match gap_between(expected, first[0]) {
            Some(gap) => {
                assert(seq![gap] + (tail_first + tail_second) =~= (seq![gap] + tail_first)
                    + tail_second);
            },
            None => {},
        }
    }
}

} // verus!
