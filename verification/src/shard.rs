//! The byte-budget shard policy for the output stage: records are appended
//! greedily, and a new shard file starts — with a monotonic index, never
//! revisited — once appending would push a non-empty shard over the budget.
//! A record larger than the whole budget gets a shard of its own.

use vstd::prelude::*;

verus! {

/// One policy step: `state` is `(shard index, bytes in that shard)`.
pub open spec fn shard_step(state: (nat, nat), budget: nat, len: nat) -> (nat, nat) {
    if state.1 + len > budget && state.1 > 0 {
        ((state.0 + 1) as nat, len)
    } else {
        (state.0, (state.1 + len) as nat)
    }
}

/// The policy state after placing every record of `sizes`, in order,
/// starting from an empty first shard.
pub open spec fn shard_state(sizes: Seq<nat>, budget: nat) -> (nat, nat)
    decreases sizes.len(),
{
    if sizes.len() == 0 {
        (0, 0)
    } else {
        shard_step(shard_state(sizes.drop_last(), budget), budget, sizes.last())
    }
}

/// The shard index the record at position `i` is written to.
pub open spec fn shard_index_of(sizes: Seq<nat>, budget: nat, i: int) -> nat {
    shard_state(sizes.take(i + 1), budget).0
}

/// How many shard files the policy uses: one even when nothing was written.
pub open spec fn shard_count(sizes: Seq<nat>, budget: nat) -> nat {
    (shard_state(sizes, budget).0 + 1) as nat
}

/// The total content bytes.
pub open spec fn total_bytes(sizes: Seq<nat>) -> nat
    decreases sizes.len(),
{
    if sizes.len() == 0 {
        0
    } else {
        (total_bytes(sizes.drop_last()) + sizes.last()) as nat
    }
}

/// LAW: when the total content fits the budget, everything lands in the one
/// first shard.
pub proof fn lemma_single_shard(sizes: Seq<nat>, budget: nat)
    requires
        total_bytes(sizes) <= budget,
    ensures
        shard_count(sizes, budget) == 1,
        shard_state(sizes, budget) == ((0nat, total_bytes(sizes))),
    decreases sizes.len(),
{
    if sizes.len() > 0 {
        lemma_single_shard(sizes.drop_last(), budget);
    }
}

/// LAW: when no single record exceeds the budget, no shard is ever filled
/// past the budget: the running byte count of the open shard — which is
/// every shard's final total at the moment it is closed or the run ends —
/// stays within the budget, at every prefix of the stream.
pub proof fn lemma_no_shard_exceeds_budget(sizes: Seq<nat>, budget: nat)
    requires
        forall|i: int| #![trigger sizes[i]] 0 <= i < sizes.len() ==> sizes[i] <= budget,
    ensures
        shard_state(sizes, budget).1 <= budget,
    decreases sizes.len(),
{
    if sizes.len() > 0 {
        assert(forall|i: int|
            #![trigger sizes.drop_last()[i]]
            0 <= i < sizes.len() - 1 ==> sizes.drop_last()[i] == sizes[i]);
        lemma_no_shard_exceeds_budget(sizes.drop_last(), budget);
        assert(sizes.last() <= budget);
    }
}

/// Shard indices never decrease along the stream, and grow by at most one
/// per record.
pub proof fn lemma_shard_index_monotone(sizes: Seq<nat>, budget: nat, i: int)
    requires
        0 <= i < sizes.len() - 1,
    ensures
        shard_index_of(sizes, budget, i) <= shard_index_of(sizes, budget, i + 1),
        shard_index_of(sizes, budget, i + 1) <= shard_index_of(sizes, budget, i) + 1,
{
    assert(sizes.take(i + 2).drop_last() =~= sizes.take(i + 1));
    assert(sizes.take(i + 2).last() == sizes[i + 1]);
}

/// LAW: a record larger than the whole budget sits alone in its shard: the
/// record before it (if any) closes the previous shard, and the record
/// after it (if any) opens the next one.
pub proof fn lemma_oversize_record_alone(sizes: Seq<nat>, budget: nat, i: int)
    requires
        0 <= i < sizes.len(),
        sizes[i] > budget,
        forall|k: int| #![trigger sizes[k]] 0 <= k < sizes.len() ==> sizes[k] > 0,
    ensures
        i > 0 ==> shard_index_of(sizes, budget, i - 1) < shard_index_of(sizes, budget, i),
        i < sizes.len() - 1 ==> shard_index_of(sizes, budget, i) < shard_index_of(
            sizes,
            budget,
            i + 1,
        ),
{
    lemma_used_positive(sizes, budget, i);
    if i > 0 {
        lemma_used_positive(sizes, budget, i - 1);
        assert(sizes.take(i + 1).drop_last() =~= sizes.take(i));
        assert(sizes.take(i + 1).last() == sizes[i]);
        let st = shard_state(sizes.take(i), budget);
        assert(st.1 + sizes[i] > budget);
    }
    if i < sizes.len() - 1 {
        assert(sizes.take(i + 2).drop_last() =~= sizes.take(i + 1));
        assert(sizes.take(i + 2).last() == sizes[i + 1]);
        let st = shard_state(sizes.take(i + 1), budget);
        assert(st.1 >= sizes[i]) by {
            assert(sizes.take(i + 1).drop_last() =~= sizes.take(i));
            assert(sizes.take(i + 1).last() == sizes[i]);
        }
        assert(st.1 + sizes[i + 1] > budget);
    }
}

/// After any non-empty prefix of positive records, the open shard holds
/// something.
proof fn lemma_used_positive(sizes: Seq<nat>, budget: nat, i: int)
    requires
        0 <= i < sizes.len(),
        forall|k: int| #![trigger sizes[k]] 0 <= k < sizes.len() ==> sizes[k] > 0,
    ensures
        shard_state(sizes.take(i + 1), budget).1 > 0,
{
    assert(sizes.take(i + 1).drop_last() =~= sizes.take(i));
    assert(sizes.take(i + 1).last() == sizes[i]);
}

/// The invariant behind the shard-count bound: the bytes seen so far never
/// exceed the budget-rounds already closed plus the open shard's content.
proof fn lemma_bytes_le_state(sizes: Seq<nat>, budget: nat)
    requires
        forall|i: int| #![trigger sizes[i]] 0 <= i < sizes.len() ==> sizes[i] <= budget,
    ensures
        total_bytes(sizes) <= shard_state(sizes, budget).0 * budget + shard_state(
            sizes,
            budget,
        ).1,
        shard_state(sizes, budget).1 <= budget,
    decreases sizes.len(),
{
    if sizes.len() > 0 {
        assert(forall|i: int|
            #![trigger sizes.drop_last()[i]]
            0 <= i < sizes.len() - 1 ==> sizes.drop_last()[i] == sizes[i]);
        lemma_bytes_le_state(sizes.drop_last(), budget);
        let st = shard_state(sizes.drop_last(), budget);
        let len = sizes.last();
        assert(len <= budget);
        if st.1 + len > budget && st.1 > 0 {
            assert((st.0 + 1) * budget == st.0 * budget + budget) by (nonlinear_arith);
        }
    }
}

/// LAW: when no record exceeds the budget, the shard count is at least the
/// ceiling of total bytes over budget: the files jointly hold all bytes,
/// none holding more than the budget.
pub proof fn lemma_shard_count_lower_bound(sizes: Seq<nat>, budget: nat)
    requires
        forall|i: int| #![trigger sizes[i]] 0 <= i < sizes.len() ==> sizes[i] <= budget,
    ensures
        total_bytes(sizes) <= shard_count(sizes, budget) * budget,
{
    lemma_bytes_le_state(sizes, budget);
    let st = shard_state(sizes, budget);
    assert((st.0 + 1) * budget == st.0 * budget + budget) by (nonlinear_arith);
}

/// LAW: when no record exceeds the budget, the shard count is at least the
/// ceiling of total bytes over budget, and a total above the budget needs at
/// least two shard files.
pub proof fn lemma_more_than_budget_splits(sizes: Seq<nat>, budget: nat)
    requires
        forall|i: int| #![trigger sizes[i]] 0 <= i < sizes.len() ==> sizes[i] <= budget,
        total_bytes(sizes) > budget,
    ensures
        shard_count(sizes, budget) >= 2,
{
    lemma_shard_count_lower_bound(sizes, budget);
    let c = shard_count(sizes, budget);
    assert(c >= 2) by (nonlinear_arith)
        requires
            c * budget >= total_bytes(sizes),
            total_bytes(sizes) > budget,
            c >= 1,
    ;
}

/// LAW: for a stream of one-byte records — where the total byte count is
/// the record count — the policy fills every shard file to exactly the
/// budget: the record at position `i` lands in shard `i / budget`.
pub proof fn lemma_unit_stream_placement(sizes: Seq<nat>, budget: nat, i: int)
    requires
        budget >= 1,
        forall|k: int| #![trigger sizes[k]] 0 <= k < sizes.len() ==> sizes[k] == 1,
        0 <= i < sizes.len(),
    ensures
        shard_state(sizes.take(i + 1), budget) == ((
            (i / budget as int) as nat,
            (i % budget as int + 1) as nat,
        )),
        shard_index_of(sizes, budget, i) == i / budget as int,
    decreases i,
{
    let b = budget as int;
    assert(sizes.take(i + 1).drop_last() =~= sizes.take(i));
    assert(sizes.take(i + 1).last() == sizes[i]);
    assert(sizes[i] == 1);
    if i == 0 {
        assert(sizes.take(0) =~= Seq::<nat>::empty());
        assert(shard_state(sizes.take(0), budget) == ((0nat, 0nat)));
        assert(shard_state(sizes.take(1), budget) == shard_step((0nat, 0nat), budget, 1nat));
        assert(shard_state(sizes.take(1), budget) == ((0nat, 1nat)));
        vstd::arithmetic::div_mod::lemma_fundamental_div_mod_converse(0, b, 0, 0);
    } else {
        lemma_unit_stream_placement(sizes, budget, i - 1);
        let q = (i - 1) / b;
        let r = (i - 1) % b;
        vstd::arithmetic::div_mod::lemma_fundamental_div_mod(i - 1, b);
        assert(q * b == b * q) by (nonlinear_arith);
        assert(i - 1 == q * b + r);
        assert(0 <= r < b);
        assert(shard_state(sizes.take(i), budget) == ((q as nat, (r + 1) as nat)));
        assert(shard_state(sizes.take(i + 1), budget) == shard_step(
            (q as nat, (r + 1) as nat),
            budget,
            1nat,
        ));
        if r + 1 == b {
            assert(shard_state(sizes.take(i + 1), budget) == (((q + 1) as nat, 1nat)));
            assert((q + 1) * b == q * b + b) by (nonlinear_arith);
            assert(i == (q + 1) * b + 0);
            vstd::arithmetic::div_mod::lemma_fundamental_div_mod_converse(i, b, q + 1, 0);
        } else {
            assert(shard_state(sizes.take(i + 1), budget) == ((q as nat, (r + 2) as nat)));
            assert(i == q * b + (r + 1));
            vstd::arithmetic::div_mod::lemma_fundamental_div_mod_converse(i, b, q, r + 1);
        }
    }
}

/// LAW: for a stream of one-byte records the shard count meets the spec's
/// formula exactly: the ceiling of total bytes over the budget (and one
/// shard when the stream is empty).
pub proof fn lemma_unit_stream_count(sizes: Seq<nat>, budget: nat)
    requires
        budget >= 1,
        forall|k: int| #![trigger sizes[k]] 0 <= k < sizes.len() ==> sizes[k] == 1,
        sizes.len() >= 1,
    ensures
        shard_count(sizes, budget) == (sizes.len() - 1) / budget as int + 1,
        shard_count(sizes, budget) * budget >= total_bytes(sizes),
        (shard_count(sizes, budget) - 1) * budget < total_bytes(sizes),
{
    let n = sizes.len() as int;
    let b = budget as int;
    lemma_unit_stream_placement(sizes, budget, n - 1);
    assert(sizes.take(n) =~= sizes);
    lemma_unit_total(sizes);
    let q = (n - 1) / b;
    let r = (n - 1) % b;
    vstd::arithmetic::div_mod::lemma_fundamental_div_mod(n - 1, b);
    assert((q + 1) * b == q * b + b) by (nonlinear_arith);
    assert(q * b >= 0) by (nonlinear_arith)
        requires
            q >= 0,
            b >= 1,
    ;
}

proof fn lemma_unit_total(sizes: Seq<nat>)
    requires
        forall|k: int| #![trigger sizes[k]] 0 <= k < sizes.len() ==> sizes[k] == 1,
    ensures
        total_bytes(sizes) == sizes.len(),
    decreases sizes.len(),
{
    if sizes.len() > 0 {
        assert(forall|k: int|
            #![trigger sizes.drop_last()[k]]
            0 <= k < sizes.len() - 1 ==> sizes.drop_last()[k] == sizes[k]);
        lemma_unit_total(sizes.drop_last());
    }
}

/// The running policy: feed it each record's encoded byte length, in output
/// order, and it answers which shard file the record belongs to.
pub struct ShardPlanner {
    budget: usize,
    used: usize,
    index: usize,
    placed: Ghost<Seq<nat>>,
}

/// Abstraction of a [`ShardPlanner`]: the budget and the lengths placed so
/// far.
pub ghost struct ShardPlannerView {
    pub budget: nat,
    pub placed: Seq<nat>,
}

impl View for ShardPlanner {
    type V = ShardPlannerView;

    closed spec fn view(&self) -> ShardPlannerView {
        ShardPlannerView { budget: self.budget as nat, placed: self.placed@ }
    }
}

impl ShardPlanner {
    /// The counters agree with the policy replayed over the placed lengths.
    pub closed spec fn wf(self) -> bool {
        &&& (self.index as nat, self.used as nat) == shard_state(
            self.placed@,
            self.budget as nat,
        )
    }

    /// A fresh policy for one topic's output, with the given byte budget.
    pub fn new(budget: usize) -> (r: ShardPlanner)
        ensures
            r.wf(),
            r@.budget == budget as nat,
            r@.placed == Seq::<nat>::empty(),
    {
        ShardPlanner { budget, used: 0, index: 0, placed: Ghost(Seq::empty()) }
    }

    /// Places the next record and returns the index of the shard file it
    /// goes to. The index bound is a machine limit: a run cannot open more
    /// files than a `usize` counts.
    pub fn place(&mut self, len: usize) -> (shard: usize)
        requires
            old(self).wf(),
            shard_state(old(self)@.placed, old(self)@.budget).0 < usize::MAX,
        ensures
            final(self).wf(),
            final(self)@.budget == old(self)@.budget,
            final(self)@.placed == old(self)@.placed.push(len as nat),
            shard as nat == shard_index_of(
                final(self)@.placed,
                final(self)@.budget,
                final(self)@.placed.len() - 1,
            ),
    {
        let ghost placed0 = self.placed@;
        let split = self.used > 0 && (self.used as u128 + len as u128 > self.budget as u128);
        if split {
            self.index = self.index + 1;
            self.used = len;
        } else {
            self.used = self.used + len;
        }
        self.placed = Ghost(placed0.push(len as nat));
        proof {
            assert(self.placed@.drop_last() =~= placed0);
            assert(self.placed@.take(self.placed@.len() as int) =~= self.placed@);
        }
        self.index
    }
}

} // verus!
