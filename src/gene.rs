use vstd::prelude::*;

verus! {

/// One unit of a fixed-point quantity, in millionths.
pub const SCALE: u32 = 1_000_000;

/// A structural edge `from -> to` of a genome, with its weight.
///
/// Within a genome, genes are kept in strictly ascending order of `hm`.
#[derive(Clone, Copy, PartialEq, Eq, Structural, Debug)]
pub struct Gene {
    /// Historical marking (innovation number): the sole key on which two
    /// genomes are aligned.
    pub hm: u32,
    pub enabled: bool,
    pub from: u32,
    pub to: u32,
    /// Weight, in millionths.
    pub weight: i32,
}

/// Genes strictly ascending by historical marking.
pub open spec fn sorted_by_hm(s: Seq<Gene>) -> bool {
    forall|i: int, j: int| 0 <= i < j < s.len() ==> s[i].hm < s[j].hm
}

/// Some gene of `s` carries the marking `h`.
pub open spec fn has_hm(s: Seq<Gene>, h: u32) -> bool {
    exists|k: int| 0 <= k < s.len() && s[k].hm == h
}

/// A strictly ascending sequence of `u32` markings holds at most 2^32 genes;
/// more precisely each marking is at least its position.
pub proof fn lemma_hm_at_least_index(s: Seq<Gene>, k: int)
    requires
        sorted_by_hm(s),
        0 <= k < s.len(),
    ensures
        s[k].hm >= k,
    decreases k,
{
    if k > 0 {
        lemma_hm_at_least_index(s, k - 1);
    }
}

pub proof fn lemma_sorted_len_bound(s: Seq<Gene>)
    requires
        sorted_by_hm(s),
    ensures
        s.len() <= 0x1_0000_0000,
{
    if s.len() > 0 {
        lemma_hm_at_least_index(s, s.len() - 1);
    }
}

} // verus!
