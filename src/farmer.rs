use crate::plot::{be_u64_of, range_result, Piece, Plot};
use crate::{NodeError, Tag};
use vstd::prelude::*;

verus! {

/// A candidate block proof found by auditing the plot for a timeslot's challenge.
#[derive(Clone, Copy, Debug)]
pub struct Solution {
    pub encoding: Piece,
    pub piece_index: u64,
    pub proof_index: u64,
    pub tag: Tag,
    pub epoch_index: u64,
    pub timeslot: u64,
    pub randomness: [u8; 32],
    pub solution_range: u64,
}

/// Audits the plot for a challenge: every stored tag within half the
/// solution range of the challenge's first eight bytes, read big-endian,
/// whose encoding can be read, becomes a solution.
pub fn solve(
    plot: &Plot,
    challenge: &[u8; 32],
    epoch_index: u64,
    timeslot: u64,
    randomness: [u8; 32],
    solution_range: u64,
) -> (r: Vec<Solution>)
    requires
        plot.wf(),
    ensures
        ({
            let found = range_result(
                plot.tag_map@,
                be_u64_of(challenge@) as u64,
                solution_range,
            );
            &&& r@.len() <= found.len()
            &&& forall|j: int|
                0 <= j < found.len() && plot.index_map@.contains_key(found[j].1 as u64) ==> exists|i: int|
                    0 <= i < r@.len() && r@[i].tag == found[j].0 && r@[i].piece_index == found[j].1 as u64
            &&& forall|i: int|
                0 <= i < r@.len() ==> {
                    let s = #[trigger] r@[i];
                    &&& exists|j: int|
                        0 <= j < found.len() && found[j].0 == s.tag && found[j].1 as u64
                            == s.piece_index
                    &&& s.epoch_index == epoch_index && s.timeslot == timeslot && s.randomness
                        == randomness && s.solution_range == solution_range
                    &&& plot.index_map@.contains_key(s.piece_index) && s.encoding@
                        == plot.plot_file@.subrange(
                        plot.index_map@[s.piece_index] as int,
                        plot.index_map@[s.piece_index] + 4096,
                    )
                }
        }),
{
    let mut target: [u8; 8] = [0u8; 8];
    let mut i: usize = 0;
    while i < 8
        invariant
            i <= 8,
            forall|j: int| 0 <= j < i ==> target@[j] == challenge@[j],
        decreases 8 - i,
    {
        target[i] = challenge[i];
        i += 1;
    }
    assert(target@.subrange(0, 8) =~= challenge@.subrange(0, 8));
    let found = match plot.find_by_range(target, solution_range) {
        Ok(v) => v,
        Err(_) => Vec::new(),
    };
    let mut out: Vec<Solution> = Vec::new();
    let mut k: usize = 0;
    while k < found.len()
        invariant
            plot.wf(),
            found@ == range_result(plot.tag_map@, be_u64_of(challenge@) as u64, solution_range),
            k <= found@.len(),
            out@.len() <= k,
            forall|j: int|
                0 <= j < k && plot.index_map@.contains_key(found@[j].1 as u64) ==> exists|i: int|
                    0 <= i < out@.len() && out@[i].tag == found@[j].0 && out@[i].piece_index == found@[j].1 as u64,
            forall|i: int|
                0 <= i < out@.len() ==> {
                    let s = #[trigger] out@[i];
                    &&& exists|j: int|
                        0 <= j < found@.len() && found@[j].0 == s.tag && found@[j].1 as u64
                            == s.piece_index
                    &&& s.epoch_index == epoch_index && s.timeslot == timeslot && s.randomness
                        == randomness && s.solution_range == solution_range
                    &&& plot.index_map@.contains_key(s.piece_index) && s.encoding@
                        == plot.plot_file@.subrange(
                        plot.index_map@[s.piece_index] as int,
                        plot.index_map@[s.piece_index] + 4096,
                    )
                },
        decreases found@.len() - k,
    {
        let (tag, index) = found[k];
        match plot.read(index) {
            Ok(encoding) => {
                let s = Solution {
                    encoding,
                    piece_index: index as u64,
                    proof_index: index as u64,
                    tag,
                    epoch_index,
                    timeslot,
                    randomness,
                    solution_range,
                };
                let ghost prev = out@;
                out.push(s);
                proof {
                    assert forall|j: int|
                        0 <= j < k + 1 && plot.index_map@.contains_key(found@[j].1 as u64) implies exists|i: int|
                            0 <= i < out@.len() && out@[i].tag == found@[j].0 && out@[i].piece_index == found@[j].1 as u64 by {
                        if j < k {
                            let i0 = choose|i: int| 0 <= i < prev.len() && prev[i].tag == found@[j].0 && prev[i].piece_index == found@[j].1 as u64;
                            assert(out@[i0] == prev[i0]);
                        } else {
                            assert(out@[prev.len() as int] == s);
                        }
                    }
                    assert(found@[k as int].0 == s.tag && found@[k as int].1 as u64 == s.piece_index);
                }
            },
            Err(_) => {},
        }
        k += 1;
    }
    out
}

} // verus!
