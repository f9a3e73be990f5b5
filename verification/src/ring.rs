//! Fixed-capacity circular store of the most recent ticks of one instrument.
//!
//! `DataList` keeps `capacity` slots, overwrites the oldest on `insert`, and
//! exposes the stored ticks newest-to-oldest through `get_order`.

use vstd::prelude::*;
use vstd::arithmetic::div_mod::{
    lemma_add_mod_noop_right, lemma_mod_bound, lemma_mod_multiples_vanish, lemma_mod_self_0,
    lemma_small_mod, lemma_sub_mod_noop,
};
use crate::models::{TkrData, TkrResult};

verus! {

/// Mathematical model of a `DataList`: the same four pieces of state over
/// unbounded integers and a sequence.
pub struct RingModel {
    /// Number of slots, fixed at construction.
    pub capacity: int,
    /// Slot the next insertion will overwrite.
    pub insert_i: int,
    /// Slot holding the most recently inserted tick.
    pub curr_i: int,
    /// The slots.
    pub data: Seq<TkrData>,
}

impl RingModel {
    /// Well-formedness: at least one slot, one tick in every slot, both
    /// cursors in range.
    pub open spec fn wf(&self) -> bool {
        &&& self.capacity >= 1
        &&& self.data.len() == self.capacity
        &&& 0 <= self.insert_i < self.capacity
        &&& 0 <= self.curr_i < self.capacity
    }

    /// A buffer as construction leaves it: `cap` slots of placeholder ticks,
    /// both cursors at slot `0`.
    pub open spec fn is_fresh(&self, cap: int) -> bool {
        &&& self.wf()
        &&& self.capacity == cap
        &&& self.insert_i == 0
        &&& self.curr_i == 0
        &&& forall|i: int| 0 <= i < self.data.len() ==> (#[trigger] self.data[i]).is_zero()
    }
}

/// The chronological predecessor of slot `i`: the slot one step backwards,
/// cyclically. This exact arithmetic form is what the row-comparison logic
/// reproduces when it looks up "the entry immediately before" an entry.
pub open spec fn pred_slot(cap: int, i: int) -> int {
    (cap - 1) - ((cap - i) % cap)
}

/// `k` backward steps from slot `start`.
pub open spec fn step_back(cap: int, start: int, k: nat) -> int
    decreases k,
{
    if k == 0 {
        start
    } else {
        pred_slot(cap, step_back(cap, start, (k - 1) as nat))
    }
}

/// What one insertion does to the model: the tick lands in slot `insert_i`,
/// the write cursor advances cyclically, and the slot just written becomes
/// the newest.
pub open spec fn insert_spec(m: RingModel, tick: TkrData) -> RingModel {
    RingModel {
        capacity: m.capacity,
        insert_i: (m.insert_i + 1) % m.capacity,
        curr_i: m.insert_i,
        data: m.data.update(m.insert_i, tick),
    }
}

/// Folding a whole sequence of ticks into the model, oldest first.
pub open spec fn insert_all(m: RingModel, ticks: Seq<TkrData>) -> RingModel
    decreases ticks.len(),
{
    if ticks.len() == 0 {
        m
    } else {
        insert_spec(insert_all(m, ticks.drop_last()), ticks.last())
    }
}

/// On a slot in range, the predecessor formula is a plain cyclic step back:
/// slot `0` wraps to `cap - 1`, any other slot goes to `i - 1`.
pub proof fn lemma_pred_slot(cap: int, i: int)
    requires
        1 <= cap,
        0 <= i < cap,
    ensures
        pred_slot(cap, i) == if i == 0 { cap - 1 } else { i - 1 },
        0 <= pred_slot(cap, i) < cap,
{
    if i == 0 {
        lemma_mod_self_0(cap);
    } else {
        lemma_small_mod((cap - i) as nat, cap as nat);
    }
}

/// The slot that receives the tick inserted `n` insertions after the state
/// `m`: insertions walk forward cyclically from the write cursor.
pub open spec fn nth_slot(m: RingModel, n: int) -> int {
    (m.insert_i + n) % m.capacity
}

/// Slots of two insertions less than a full lap apart differ.
proof fn lemma_slots_distinct(a: int, b: int, cap: int)
    requires
        1 <= cap,
        0 < b - a < cap,
    ensures
        a % cap != b % cap,
{
    lemma_sub_mod_noop(b, a, cap);
    lemma_small_mod((b - a) as nat, cap as nat);
    if a % cap == b % cap {
        lemma_small_mod(0nat, cap as nat);
        assert((b % cap - a % cap) % cap == 0);
    }
}

/// Stepping back `k` times from a slot in range is subtraction modulo the
/// capacity.
proof fn lemma_step_back_is_mod(cap: int, start: int, k: nat)
    requires
        1 <= cap,
        0 <= start < cap,
    ensures
        step_back(cap, start, k) == (start - k) % cap,
    decreases k,
{
    if k == 0 {
        lemma_small_mod(start as nat, cap as nat);
    } else {
        lemma_step_back_is_mod(cap, start, (k - 1) as nat);
        let j = (start - (k - 1)) % cap;
        lemma_mod_bound(start - (k - 1), cap);
        lemma_pred_slot(cap, j);
        if cap == 1 {
            lemma_mod_bound(start - k, cap);
        } else {
            lemma_sub_mod_noop(start - (k - 1), 1, cap);
            lemma_small_mod(1nat, cap as nat);
            if j == 0 {
                lemma_mod_multiples_vanish(-1, cap - 1, cap);
                lemma_small_mod((cap - 1) as nat, cap as nat);
            } else {
                lemma_small_mod((j - 1) as nat, cap as nat);
            }
        }
    }
}

/// The predecessor relation is involutive over a full cycle: stepping back
/// `capacity` times from any slot returns to that slot.
pub proof fn lemma_pred_cycle(cap: int, i: int)
    requires
        1 <= cap,
        0 <= i < cap,
    ensures
        step_back(cap, i, cap as nat) == i,
{
    lemma_step_back_is_mod(cap, i, cap as nat);
    lemma_mod_multiples_vanish(-1, i, cap);
    lemma_small_mod(i as nat, cap as nat);
}

/// After `k` insertions the write cursor has advanced `k` steps, the newest
/// slot is the one written last, and each of the last `min(k, capacity)`
/// ticks sits in the slot its insertion wrote.
pub proof fn lemma_insert_all_window(m: RingModel, ticks: Seq<TkrData>)
    requires
        m.wf(),
        ticks.len() >= 1,
    ensures
        insert_all(m, ticks).wf(),
        insert_all(m, ticks).capacity == m.capacity,
        insert_all(m, ticks).insert_i == nth_slot(m, ticks.len() as int),
        insert_all(m, ticks).curr_i == nth_slot(m, ticks.len() - 1),
        forall|i: int|
            ticks.len() - vstd::math::min(ticks.len() as int, m.capacity) <= i < ticks.len()
                ==> insert_all(m, ticks).data[#[trigger] nth_slot(m, i)] == ticks[i],
    decreases ticks.len(),
{
    let k = ticks.len() as int;
    let cap = m.capacity;
    let r = insert_all(m, ticks);
    lemma_mod_bound(m.insert_i + k, cap);
    if k == 1 {
        lemma_small_mod(m.insert_i as nat, cap as nat);
        assert(insert_all(m, ticks.drop_last()) == m);
        assert(r.data[nth_slot(m, 0)] == ticks[0]);
    } else {
        let prev = insert_all(m, ticks.drop_last());
        lemma_insert_all_window(m, ticks.drop_last());
        assert(prev.insert_i == nth_slot(m, k - 1));
        lemma_add_mod_noop_right(1, m.insert_i + k - 1, cap);
        assert(r == insert_spec(prev, ticks.last()));
        assert(r.data[nth_slot(m, k - 1)] == ticks[k - 1]);
        assert forall|i: int|
            k - vstd::math::min(k, cap) <= i < k - 1 implies r.data[#[trigger] nth_slot(m, i)]
            == ticks[i] by {
            lemma_slots_distinct(m.insert_i + i, m.insert_i + k - 1, cap);
            assert(nth_slot(m, i) != nth_slot(m, k - 1));
            assert(prev.data[nth_slot(m, i)] == ticks.drop_last()[i]);
        }
    }
}

/// The window law of the traversal: once at least `capacity` ticks have been
/// inserted, the tick found `j` backward steps from the newest slot is the
/// `j`-th-from-last tick inserted, for every step the traversal takes.
pub proof fn lemma_newest_to_oldest_window(m: RingModel, ticks: Seq<TkrData>)
    requires
        m.wf(),
        m.capacity > 1,
        ticks.len() >= m.capacity,
    ensures
        forall|j: nat|
            j < m.capacity - 1 ==> insert_all(m, ticks).data[#[trigger] step_back(
                m.capacity,
                insert_all(m, ticks).curr_i,
                j,
            )] == ticks[ticks.len() - 1 - j],
{
    let k = ticks.len() as int;
    let cap = m.capacity;
    let r = insert_all(m, ticks);
    lemma_insert_all_window(m, ticks);
    assert forall|j: nat| j < cap - 1 implies r.data[#[trigger] step_back(cap, r.curr_i, j)]
        == ticks[k - 1 - j] by {
        lemma_mod_bound(m.insert_i + k - 1, cap);
        lemma_step_back_is_mod(cap, r.curr_i, j);
        lemma_sub_mod_noop(m.insert_i + k - 1, j as int, cap);
        lemma_small_mod(j, cap as nat);
        assert(step_back(cap, r.curr_i, j) == nth_slot(m, k - 1 - j));
        assert(r.data[nth_slot(m, k - 1 - j)] == ticks[k - 1 - j]);
    }
}

/// Inserting exactly `capacity` ticks into a fresh buffer fills every slot:
/// slot `i` ends up holding the `i`-th tick inserted, so distinct ticks
/// occupy distinct slots and no placeholder remains.
pub proof fn lemma_fill_exactly(m: RingModel, ticks: Seq<TkrData>)
    requires
        m.wf(),
        m.insert_i == 0,
        ticks.len() == m.capacity,
    ensures
        insert_all(m, ticks).data =~= ticks,
{
    let cap = m.capacity;
    let r = insert_all(m, ticks);
    lemma_insert_all_window(m, ticks);
    assert forall|i: int| 0 <= i < cap implies r.data[i] == ticks[i] by {
        lemma_small_mod(i as nat, cap as nat);
        assert(nth_slot(m, i) == i);
        assert(r.data[nth_slot(m, i)] == ticks[i]);
    }
}

/// Per-instrument container of the most recent `capacity` ticks.
pub struct DataList {
    /// Number of slots, fixed at construction.
    pub capacity: usize,
    /// Slot the next insertion will overwrite.
    pub insert_i: usize,
    /// Slot holding the most recently inserted tick.
    pub curr_i: usize,
    /// The slots; exactly one tick occupies each at all times.
    pub data: Vec<TkrData>,
}

impl View for DataList {
    type V = RingModel;

    open spec fn view(&self) -> RingModel {
        RingModel {
            capacity: self.capacity as int,
            insert_i: self.insert_i as int,
            curr_i: self.curr_i as int,
            data: self.data@,
        }
    }
}

impl DataList {
    /// A fresh buffer: `n` slots all holding the zero-value placeholder tick,
    /// both cursors at slot `0`.
    pub fn new(n: usize) -> (r: Self)
        requires
            1 <= n,
        ensures
            r@.is_fresh(n as int),
    {
        let mut data: Vec<TkrData> = Vec::new();
        let mut filled: usize = 0;
        while filled < n
            invariant
                filled <= n,
                data@.len() == filled,
                forall|i: int| 0 <= i < filled ==> data@[i].is_zero(),
            decreases n - filled,
        {
            data.push(TkrData::default());
            filled = filled + 1;
        }
        DataList { capacity: n, insert_i: 0, curr_i: 0, data }
    }

    /// Stores the message's first tick in the slot under the write cursor and
    /// advances both cursors; the single mutation path of the buffer.
    pub fn insert(&mut self, tkr_result: &TkrResult)
        requires
            old(self)@.wf(),
            tkr_result.data@.len() >= 1,
        ensures
            final(self)@ == insert_spec(old(self)@, tkr_result.data@[0]),
            final(self)@.wf(),
    {
        let data = tkr_result.data[0].clone();
        let slot = &mut self.data[self.insert_i];
        *slot = data;
        proof {
            if self.insert_i + 1 == self.capacity {
                lemma_mod_self_0(self.capacity as int);
            } else {
                lemma_small_mod((self.insert_i + 1) as nat, self.capacity as nat);
            }
        }
        self.insert_i = (self.insert_i + 1) % self.capacity;
        self.curr_i = (self.capacity - 1) - ((self.capacity - self.insert_i) % self.capacity);
        proof {
            lemma_pred_slot(self.capacity as int, self.insert_i as int);
        }
    }

    /// Decides well-formedness at run time, for callers outside the verified
    /// world that must test it before relying on it.
    pub fn check_wf(&self) -> (r: bool)
        ensures
            r == self@.wf(),
    {
        self.capacity >= 1 && self.data.len() == self.capacity && self.insert_i < self.capacity
            && self.curr_i < self.capacity
    }

    /// The most recently inserted tick: the summary table shows its fields.
    pub fn newest<'a>(&'a self) -> (t: &'a TkrData)
        requires
            self@.wf(),
        ensures
            *t == self@.data[self@.curr_i],
    {
        &self.data[self.curr_i]
    }

    /// The traversal order of the buffer: `capacity - 1` slot indices,
    /// starting at the newest and stepping backwards cyclically, leaving out
    /// the one slot the next insertion will overwrite.
    pub fn get_order(&self) -> (order: Vec<usize>)
        requires
            self@.wf(),
        ensures
            order@.len() == self@.capacity - 1,
            forall|j: int|
                0 <= j < order@.len() ==> order@[j] == step_back(
                    self@.capacity,
                    self@.curr_i,
                    j as nat,
                ),
            forall|j: int| 0 <= j < order@.len() ==> 0 <= #[trigger] order@[j] < self@.capacity,
    {
        let mut i: usize = self.curr_i;
        let mut taken: usize = 0;
        let mut order: Vec<usize> = Vec::with_capacity(self.capacity);
        while taken < self.capacity - 1
            invariant
                self@.wf(),
                taken <= self@.capacity - 1,
                i < self@.capacity,
                i == step_back(self@.capacity, self@.curr_i, taken as nat),
                order@.len() == taken,
                forall|j: int|
                    0 <= j < taken ==> order@[j] == step_back(
                        self@.capacity,
                        self@.curr_i,
                        j as nat,
                    ),
                forall|j: int| 0 <= j < taken ==> 0 <= #[trigger] order@[j] < self@.capacity,
            decreases self@.capacity - 1 - taken,
        {
            order.push(i);
            proof {
                lemma_pred_slot(self.capacity as int, i as int);
            }
            i = (self.capacity - 1) - ((self.capacity - i) % self.capacity);
            taken = taken + 1;
        }
        order
    }
}

} // verus!
