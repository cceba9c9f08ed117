use vstd::prelude::*;
use crate::descriptor::{PerfCtlDescriptor, NUM_SLOTS};
use crate::error::HarnessError;
use crate::record::{render_report, report_bytes};
use crate::stats::{Statistics, describes, lemma_constant_statistics, variance_numerator};

verus! {

/// Raw values of every counter slot, or their per-slot change.
pub type Counts = [u64; NUM_SLOTS];

/// The counter values read immediately before and immediately after one
/// execution of a code region.
#[derive(Clone, Copy, Debug)]
pub struct Reading {
    pub before: Counts,
    pub after: Counts,
}

/// Some counter went backwards across the execution.
pub open spec fn wraps(r: Reading) -> bool {
    exists|i: int| 0 <= i < NUM_SLOTS && #[trigger] r.after[i] < r.before[i]
}

/// The per-slot change that a reading records.
pub open spec fn delta_of(r: Reading) -> Counts {
    choose|d: Counts| is_delta(d, r)
}

/// `d` holds, slot by slot, the change that `r` records.
pub open spec fn is_delta(d: Counts, r: Reading) -> bool {
    forall|i: int| 0 <= i < NUM_SLOTS ==> #[trigger] d[i] == r.after[i] - r.before[i]
}

/// The samples that a sequence of readings records, in order.
pub open spec fn samples_of(rs: Seq<Reading>) -> Seq<Counts> {
    rs.map_values(|r: Reading| delta_of(r))
}

/// The values of one slot across a sequence of samples.
pub open spec fn column_of(samples: Seq<Counts>, slot: int) -> Seq<u64> {
    samples.map_values(|s: Counts| s[slot])
}

proof fn lemma_delta_of(r: Reading, d: Counts)
    requires
        is_delta(d, r),
    ensures
        delta_of(r) == d,
{
    assert(is_delta(delta_of(r), r));
    assert(delta_of(r)@ =~= d@);
}

/// The change of every slot across one execution; fails when a counter went
/// backwards.
pub fn delta(r: &Reading) -> (res: Result<Counts, HarnessError>)
    ensures
        wraps(*r) <==> res == Err::<Counts, HarnessError>(HarnessError::CounterWrap),
        !wraps(*r) ==> res == Ok::<Counts, HarnessError>(delta_of(*r)),
{
    let mut d: Counts = [0, 0, 0, 0];
    let mut i: usize = 0;
    while i < NUM_SLOTS
        invariant
            0 <= i <= NUM_SLOTS,
            forall|j: int| 0 <= j < i ==> #[trigger] d[j] == r.after[j] - r.before[j],
            forall|j: int| 0 <= j < i ==> #[trigger] r.after[j] >= r.before[j],
        decreases NUM_SLOTS - i,
    {
        if r.after[i] < r.before[i] {
            return Err(HarnessError::CounterWrap);
        }
        d[i] = r.after[i] - r.before[i];
        i = i + 1;
    }
    proof {
        lemma_delta_of(*r, d);
    }
    Ok(d)
}

/// One measurement: a description, the descriptor under which the counters
/// were programmed, and the samples recorded so far, in execution order.
pub struct MeasurementRun {
    pub description: String,
    pub descriptor: PerfCtlDescriptor,
    pub samples: Vec<Counts>,
}

impl MeasurementRun {
    /// A run with no samples yet.
    pub fn new(description: String, descriptor: PerfCtlDescriptor) -> (r: MeasurementRun)
        ensures
            r.description == description,
            r.descriptor == descriptor,
            r.samples@.len() == 0,
    {
        MeasurementRun { description, descriptor, samples: Vec::new() }
    }

    /// Appends the sample of each reading, in order, one per execution.
    /// When some reading shows a counter going backwards, nothing is appended
    /// and the run fails with a wrap error.
    pub fn run_iter(&mut self, readings: &Vec<Reading>) -> (res: Result<(), HarnessError>)
        ensures
            final(self).description == old(self).description,
            final(self).descriptor == old(self).descriptor,
            (exists|k: int| 0 <= k < readings@.len() && wraps(#[trigger] readings@[k]))
                <==> res == Err::<(), HarnessError>(HarnessError::CounterWrap),
            res is Err ==> res == Err::<(), HarnessError>(HarnessError::CounterWrap),
            res is Ok ==> final(self).samples@ == old(self).samples@ + samples_of(readings@),
            res is Ok ==> final(self).samples@.len() == old(self).samples@.len()
                + readings@.len(),
            res is Err ==> final(self).samples@ == old(self).samples@,
    {
        let mut fresh: Vec<Counts> = Vec::new();
        let mut k: usize = 0;
        while k < readings.len()
            invariant
                0 <= k <= readings@.len(),
                fresh@ == samples_of(readings@.take(k as int)),
                forall|j: int| 0 <= j < k ==> !wraps(#[trigger] readings@[j]),
            decreases readings@.len() - k,
        {
            match delta(&readings[k]) {
                Ok(d) => {
                    fresh.push(d);
                    assert(readings@.take(k as int + 1) =~= readings@.take(k as int).push(
                        readings@[k as int],
                    ));
                    assert(samples_of(readings@.take(k as int + 1)) =~= fresh@);
                },
                Err(e) => {
                    return Err(e);
                },
            }
            k = k + 1;
        }
        assert(readings@.take(k as int) =~= readings@);
        self.samples.append(&mut fresh);
        Ok(())
    }

    /// The values that one slot took across the samples.
    pub fn column(&self, slot: usize) -> (r: Vec<u64>)
        requires
            slot < NUM_SLOTS,
        ensures
            r@ == column_of(self.samples@, slot as int),
    {
        let mut r: Vec<u64> = Vec::new();
        let mut k: usize = 0;
        while k < self.samples.len()
            invariant
                0 <= k <= self.samples@.len(),
                slot < NUM_SLOTS,
                r@ == column_of(self.samples@.take(k as int), slot as int),
            decreases self.samples@.len() - k,
        {
            r.push(self.samples[k][slot]);
            assert(self.samples@.take(k as int + 1) =~= self.samples@.take(k as int).push(
                self.samples@[k as int],
            ));
            assert(column_of(self.samples@.take(k as int + 1), slot as int) =~= r@);
            k = k + 1;
        }
        assert(self.samples@.take(k as int) =~= self.samples@);
        r
    }

    /// The aggregates of one slot over all samples.
    pub fn statistics(&self, slot: usize) -> (r: Statistics)
        requires
            slot < NUM_SLOTS,
        ensures
            describes(r, column_of(self.samples@, slot as int)),
    {
        let values = self.column(slot);
        Statistics::of(&values)
    }

    /// One record for each bound slot of the descriptor, in slot order: the
    /// slot and the aggregates of its values. Unbound slots have none.
    pub fn records(&self) -> (r: Vec<(u64, Statistics)>)
        ensures
            is_records_of(r@, self.descriptor, self.samples@),
    {
        let mut r: Vec<(u64, Statistics)> = Vec::new();
        let mut k: usize = 0;
        while k < NUM_SLOTS
            invariant
                0 <= k <= NUM_SLOTS,
                r@.len() == bound_slots(self.descriptor, k as int).len(),
                forall|i: int| 0 <= i < r@.len() ==> (#[trigger] r@[i]).0 == bound_slots(
                    self.descriptor,
                    k as int,
                )[i],
                forall|i: int| 0 <= i < r@.len() ==> describes(
                    (#[trigger] r@[i]).1,
                    column_of(self.samples@, r@[i].0 as int),
                ),
            decreases NUM_SLOTS - k,
        {
            if self.descriptor.get(k).is_some() {
                let st = self.statistics(k);
                r.push((k as u64, st));
            }
            k = k + 1;
        }
        r
    }

    /// The text of the run's records: one line for each bound slot, in slot
    /// order, and nothing for unbound slots.
    pub fn report(&self) -> (r: Vec<u8>)
        ensures
            exists|recs: Seq<(u64, Statistics)>|
                is_records_of(recs, self.descriptor, self.samples@) && r@ == report_bytes(recs),
    {
        let recs = self.records();
        render_report(&recs)
    }
}

/// The bound slots among the first `k`, in order.
pub open spec fn bound_slots(d: PerfCtlDescriptor, k: int) -> Seq<u64>
    decreases k,
{
    if k <= 0 {
        Seq::empty()
    } else if d.slots[k - 1] is Some {
        bound_slots(d, k - 1).push((k - 1) as u64)
    } else {
        bound_slots(d, k - 1)
    }
}

/// `recs` holds, for each bound slot in slot order and for no other, the
/// slot and the aggregates of that slot's values across `samples`.
pub open spec fn is_records_of(
    recs: Seq<(u64, Statistics)>,
    d: PerfCtlDescriptor,
    samples: Seq<Counts>,
) -> bool {
    &&& recs.len() == bound_slots(d, NUM_SLOTS as int).len()
    &&& forall|i: int| 0 <= i < recs.len() ==> (#[trigger] recs[i]).0 == bound_slots(d, NUM_SLOTS as int)[i]
    &&& forall|i: int| 0 <= i < recs.len() ==> describes((#[trigger] recs[i]).1, column_of(samples, recs[i].0 as int))
}

/// Recording `n` readings gives exactly `n` samples, and the statistics of
/// any slot over them report a count of `n`.
pub proof fn lemma_count_matches_iterations(readings: Seq<Reading>, slot: int, st: Statistics)
    requires
        0 <= slot < NUM_SLOTS,
        describes(st, column_of(samples_of(readings), slot)),
    ensures
        samples_of(readings).len() == readings.len(),
        st.count == readings.len(),
{
}

/// Of readings that a run accepts (no counter went backwards): a slot whose
/// counter reads the same before and after every execution records a delta of exactly 0 in every sample, and its statistics are all 0.
pub proof fn lemma_quiet_slot_is_zero(readings: Seq<Reading>, slot: int, st: Statistics)
    requires
        0 <= slot < NUM_SLOTS,
        readings.len() > 0,
        forall|k: int| 0 <= k < readings.len() ==> !wraps(#[trigger] readings[k]),
        forall|k: int| 0 <= k < readings.len() ==> (#[trigger] readings[k]).before[slot]
            == readings[k].after[slot],
        describes(st, column_of(samples_of(readings), slot)),
    ensures
        forall|k: int| 0 <= k < readings.len() ==> (#[trigger] samples_of(readings)[k])[slot] == 0,
        st.min == 0,
        st.max == 0,
        st.sum == 0,
        variance_numerator(st) == 0,
{
    let col = column_of(samples_of(readings), slot);
    assert forall|k: int| 0 <= k < readings.len() implies (#[trigger] samples_of(readings)[k])[slot] == 0 by {
        let r = readings[k];
        assert(!wraps(r));
        let d: Counts = [
            (r.after[0] - r.before[0]) as u64,
            (r.after[1] - r.before[1]) as u64,
            (r.after[2] - r.before[2]) as u64,
            (r.after[3] - r.before[3]) as u64,
        ];
        lemma_delta_of(r, d);
    }
    assert forall|k: int| 0 <= k < col.len() implies col[k] == 0u64 by {
        assert(samples_of(readings)[k][slot] == 0);
    }
    lemma_constant_statistics(st, col, 0);
}

} // verus!
