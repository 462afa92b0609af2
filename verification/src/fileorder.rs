//! Ordering topic folders largest first, so the parallel pool starts the
//! biggest work earliest. Sizes are measured outside and handed in.

use vstd::prelude::*;

verus! {

use vstd::multiset::Multiset;

/// One topic folder with its measured byte size.
pub struct FolderEntry {
    pub size: u64,
    pub path: String,
}

/// Whether the entries are ordered largest first.
pub open spec fn sorted_by_size_desc(s: Seq<FolderEntry>) -> bool {
    forall|i: int, j: int| #![trigger s[i], s[j]] 0 <= i < j < s.len() ==> s[i].size >= s[j].size
}

/// Reorders folder entries by size, largest first. The result holds exactly
/// the given entries.
pub fn reorder_by_size(folders: Vec<FolderEntry>) -> (r: Vec<FolderEntry>)
    ensures
        sorted_by_size_desc(r@),
        r@.to_multiset() == folders@.to_multiset(),
        r@.len() == folders@.len(),
{
    broadcast use vstd::seq_lib::group_to_multiset_ensures;

    let ghost input = folders@;
    let mut rest = folders;
    let mut out: Vec<FolderEntry> = Vec::new();
    while rest.len() > 0
        invariant
            out@.to_multiset().add(rest@.to_multiset()) == input.to_multiset(),
            out@.len() + rest@.len() == input.len(),
            sorted_by_size_desc(out@),
            forall|i: int, j: int|
                #![trigger out@[i], rest@[j]]
                0 <= i < out@.len() && 0 <= j < rest@.len() ==> out@[i].size >= rest@[j].size,
        decreases rest@.len(),
    {
        let m = rest.len();
        let mut best: usize = 0;
        for q in 1..m
            invariant
                m == rest@.len(),
                best < m,
                forall|w: int| #![trigger rest@[w]] 0 <= w < q ==> rest@[w].size <= rest@[
                    best as int
                ].size,
        {
            if rest[q].size > rest[best].size {
                best = q;
            }
        }
        let ghost rest0 = rest@;
        let ghost out0 = out@;
        let x = rest.remove(best);
        out.push(x);
        proof {
            rest0.to_multiset_ensures();
            out0.to_multiset_ensures();
            assert(rest@ == rest0.remove(best as int));
            assert(rest0.remove(best as int).to_multiset() =~= rest0.to_multiset().remove(
                rest0[best as int],
            ));
            assert(out@ == out0.push(rest0[best as int]));
            assert(out0.push(rest0[best as int]).to_multiset() =~= out0.to_multiset().insert(
                rest0[best as int],
            ));
            assert(out@.to_multiset().add(rest@.to_multiset()) =~= out0.to_multiset().add(
                rest0.to_multiset(),
            ));
            assert forall|i: int, j: int|
                #![trigger out@[i], rest@[j]]
                0 <= i < out@.len() && 0 <= j < rest@.len() implies out@[i].size >= rest@[
                j
            ].size by {
                assert(rest@[j] == if j < best { rest0[j] } else { rest0[j + 1] });
                if i < out0.len() {
                    assert(out@[i] == out0[i]);
                } else {
                    assert(out@[i] == rest0[best as int]);
                }
            }
            assert forall|i: int, j: int|
                #![trigger out@[i], out@[j]]
                0 <= i < j < out@.len() implies out@[i].size >= out@[j].size by {
                if j < out0.len() {
                    assert(out@[i] == out0[i] && out@[j] == out0[j]);
                } else {
                    assert(out@[j] == rest0[best as int]);
                    assert(out0[i].size >= rest0[best as int].size);
                }
            }
        }
    }
    proof {
        assert(rest@.to_multiset() =~= Multiset::<FolderEntry>::empty());
        assert(out@.to_multiset() =~= input.to_multiset());
    }
    out
}

} // verus!
