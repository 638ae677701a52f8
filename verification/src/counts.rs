//! Counting the bytes of an input: how often each of the 256 byte values
//! occurs.

use crate::error::HuffmanError;
use vstd::prelude::*;

verus! {

/// How often `symbol` occurs in `input`.
pub open spec fn occurrences(input: Seq<u8>, symbol: u8) -> nat
    decreases input.len(),
{
    if input.len() == 0 {
        0
    } else {
        occurrences(input.drop_last(), symbol) + if input.last() == symbol {
            1nat
        } else {
            0nat
        }
    }
}

/// The number `n` as a count: itself, or the greatest count where `n` is
/// above it.
pub open spec fn capped(n: nat) -> u64 {
    if n > u64::MAX {
        u64::MAX
    } else {
        n as u64
    }
}

/// The count of each of the 256 byte values in `input`.
pub open spec fn counts_of(input: Seq<u8>) -> Seq<u64> {
    Seq::new(256, |b: int| capped(occurrences(input, b as u8)))
}

/// The sum of the counts.
pub open spec fn total(counts: Seq<u64>) -> nat
    decreases counts.len(),
{
    if counts.len() == 0 {
        0
    } else {
        total(counts.drop_last()) + counts.last() as nat
    }
}

/// A byte value occurs no more often than the input is long.
pub proof fn lemma_occurrences_bound(input: Seq<u8>, symbol: u8)
    ensures
        occurrences(input, symbol) <= input.len(),
    decreases input.len(),
{
    if input.len() > 0 {
        lemma_occurrences_bound(input.drop_last(), symbol);
    }
}

/// A byte value occurs at least once just where the input holds it.
pub proof fn lemma_occurrences_positive(input: Seq<u8>, symbol: u8)
    ensures
        occurrences(input, symbol) > 0 <==> input.contains(symbol),
    decreases input.len(),
{
    if input.len() > 0 {
        lemma_occurrences_positive(input.drop_last(), symbol);
        if input.contains(symbol) {
            let i = choose|i: int| 0 <= i < input.len() && input[i] == symbol;
            if i < input.len() - 1 {
                assert(input.drop_last()[i] == symbol);
            }
        }
    }
}

/// Counts that are all zero add up to zero.
pub proof fn lemma_total_zero(counts: Seq<u64>)
    requires
        forall|k: int| 0 <= k < counts.len() ==> counts[k] == 0,
    ensures
        total(counts) == 0,
    decreases counts.len(),
{
    if counts.len() > 0 {
        lemma_total_zero(counts.drop_last());
    }
}

/// Raising one count by one raises the sum by one.
pub proof fn lemma_total_bump(before: Seq<u64>, after: Seq<u64>, at: int)
    requires
        before.len() == after.len(),
        0 <= at < before.len(),
        after[at] == before[at] + 1,
        forall|k: int| 0 <= k < before.len() && k != at ==> before[k] == after[k],
    ensures
        total(after) == total(before) + 1,
    decreases before.len(),
{
    if at == before.len() - 1 {
        assert(before.drop_last() =~= after.drop_last());
    } else {
        lemma_total_bump(before.drop_last(), after.drop_last(), at);
    }
}

/// The counts of the bytes of an input add up to its length.
pub proof fn lemma_total_counts(input: Seq<u8>)
    requires
        input.len() <= u64::MAX,
    ensures
        total(counts_of(input)) == input.len(),
    decreases input.len(),
{
    if input.len() == 0 {
        lemma_total_zero(counts_of(input));
    } else {
        let shorter = input.drop_last();
        lemma_total_counts(shorter);
        let at = input.last() as int;
        assert forall|b: u8| #[trigger] occurrences(shorter, b) <= shorter.len() by {
            lemma_occurrences_bound(shorter, b);
        }
        lemma_total_bump(counts_of(shorter), counts_of(input), at);
    }
}

/// The counts of the byte values of an input.
pub struct FrequencyTable {
    counts: Vec<u64>,
}

impl View for FrequencyTable {
    type V = Seq<u64>;

    closed spec fn view(&self) -> Seq<u64> {
        self.counts@
    }
}

impl FrequencyTable {
    /// The table has a count for each of the 256 byte values, at least one
    /// byte was counted, and the counts add up within `u64`.
    pub open spec fn wf(self) -> bool {
        self@.len() == 256 && 0 < total(self@) <= u64::MAX
    }

    /// Counts the bytes of `input`. There must be at least one.
    pub fn from_bytes(input: &[u8]) -> (table: Result<FrequencyTable, HuffmanError>)
        ensures
            match table {
                Ok(t) => input@.len() > 0 && t@ == counts_of(input@) && t.wf(),
                Err(e) => e == HuffmanError::EmptyInput && input@.len() == 0,
            },
    {
        if input.len() == 0 {
            return Err(HuffmanError::EmptyInput);
        }
        let mut counts: Vec<u64> = Vec::new();
        let mut b: usize = 0;
        while b < 256
            invariant
                b <= 256,
                counts@.len() == b,
                forall|k: int| 0 <= k < b ==> counts@[k] == 0,
            decreases 256 - b,
        {
            counts.push(0);
            b = b + 1;
        }
        let mut i: usize = 0;
        while i < input.len()
            invariant
                i <= input@.len(),
                counts@ == counts_of(input@.take(i as int)),
            decreases input@.len() - i,
        {
            let c = input[i];
            proof {
                lemma_occurrences_bound(input@.take(i as int), c);
                assert(input@.take(i + 1).drop_last() =~= input@.take(i as int));
            }
            let seen = counts[c as usize];
            counts.set(c as usize, seen + 1);
            i = i + 1;
        }
        assert(input@.take(i as int) =~= input@);
        proof {
            lemma_total_counts(input@);
        }
        Ok(FrequencyTable { counts })
    }

    /// How often `symbol` was counted.
    pub fn count(&self, symbol: u8) -> (n: u64)
        requires
            self.wf(),
        ensures
            n == self@[symbol as int],
    {
        self.counts[symbol as usize]
    }
}

} // verus!
