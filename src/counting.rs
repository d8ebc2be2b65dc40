use vstd::prelude::*;
use crate::huffman::freq;

verus! {

/// The frequency of one byte value is the number of its occurrences.
pub proof fn lemma_freq_occurrences(s: Seq<u8>, b: u8)
    ensures
        freq(s, set![b]) == s.filter(|v: u8| v == b).len(),
    decreases s.len(),
{
    if s.len() > 0 {
        lemma_freq_occurrences(s.drop_last(), b);
        assert(s =~= s.drop_last() + seq![s.last()]);
        Seq::filter_distributes_over_add(s.drop_last(), seq![s.last()], |v: u8| v == b);
        reveal(Seq::filter);
        assert(seq![s.last()].drop_last() =~= Seq::<u8>::empty());
    }
}

} // verus!
