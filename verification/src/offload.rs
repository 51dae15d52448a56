//! Host side of the host/accelerator filter boundary: marshals the packet
//! index for the parallel predicate evaluator and recovers its per-packet
//! pass/fail results.
//!
//! The accelerator call itself is outside this library; it receives the
//! packet count, the record offsets produced by [`packet_offsets`], and the
//! raw buffer, and hands back one flag per packet id. [`recover_pass_vector`]
//! takes ownership of those flags and checks the one structural guarantee the
//! boundary owes: exactly one flag per packet.

use crate::reader::PacketDescriptor;
use vstd::prelude::*;

verus! {

/// A failure of the filter-offload stage.
#[derive(Debug, Clone, Copy, PartialEq, Eq, Structural)]
pub enum OffloadError {
    /// The accelerator is missing or out of device memory.
    Unavailable,
    /// The compiled filter predicate handle is invalid.
    InvalidPredicate,
    /// The accelerator returned a result buffer whose length differs from
    /// the packet count.
    ResultLengthMismatch,
}

/// One pass/fail flag per packet id, in packet-id order.
pub struct PassVector {
    flags: Vec<bool>,
}

impl View for PassVector {
    type V = Seq<bool>;

    closed spec fn view(&self) -> Seq<bool> {
        self.flags@
    }
}

/// How many of the flags in `s` are set.
pub open spec fn count_true(s: Seq<bool>) -> int
    decreases s.len(),
{
    if s.len() == 0 {
        0
    } else {
        count_true(s.drop_last()) + if s.last() {
            1int
        } else {
            0int
        }
    }
}

/// The set flags in a sequence are never more than its length.
pub proof fn lemma_count_true_le_len(s: Seq<bool>)
    ensures
        0 <= count_true(s) <= s.len(),
    decreases s.len(),
{
    if s.len() > 0 {
        lemma_count_true_le_len(s.drop_last());
    }
}

impl PassVector {
    /// A pass vector built directly from per-packet flags.
    pub fn from_flags(flags: Vec<bool>) -> (r: PassVector)
        ensures
            r@ == flags@,
    {
        PassVector { flags }
    }

    /// The pass vector of a run without a configured filter: every one of
    /// the `count` packets passes.
    pub fn all_pass(count: usize) -> (r: PassVector)
        ensures
            r@.len() == count,
            forall|i: int| 0 <= i < count ==> r@[i] == true,
    {
        let mut flags: Vec<bool> = Vec::new();
        let mut k: usize = 0;
        while k < count
            invariant
                k <= count,
                flags@.len() == k,
                forall|i: int| 0 <= i < k ==> flags@[i] == true,
            decreases count - k,
        {
            flags.push(true);
            k = k + 1;
        }
        PassVector { flags }
    }

    /// The number of flags, which equals the packet count of the capture the
    /// vector was produced for.
    pub fn len(&self) -> (r: usize)
        ensures
            r == self@.len(),
    {
        self.flags.len()
    }

    /// The flag of packet id `i`.
    pub fn get(&self, i: usize) -> (r: bool)
        requires
            i < self@.len(),
        ensures
            r == self@[i as int],
    {
        self.flags[i]
    }

    /// How many packets passed the filter.
    pub fn pass_count(&self) -> (r: usize)
        ensures
            r == count_true(self@),
    {
        let ghost s = self@;
        let mut passed: usize = 0;
        let mut k: usize = 0;
        while k < self.flags.len()
            invariant
                k <= s.len(),
                s == self@,
                passed == count_true(s.subrange(0, k as int)),
                passed <= k,
            decreases s.len() - k,
        {
            proof {
                assert(s.subrange(0, k as int + 1).drop_last() =~= s.subrange(0, k as int));
                assert(s.subrange(0, k as int + 1).last() == s[k as int]);
            }
            if self.flags[k] {
                passed = passed + 1;
            }
            k = k + 1;
        }
        proof {
            assert(s.subrange(0, s.len() as int) =~= s);
        }
        passed
    }
}

/// The per-record absolute offsets handed to the accelerator: the kernel
/// re-derives each packet's header fields from the raw buffer, so only the
/// offsets cross the boundary, one per packet and in packet-id order.
pub fn packet_offsets(index: &Vec<PacketDescriptor>) -> (r: Vec<u64>)
    ensures
        r@.len() == index@.len(),
        forall|i: int| 0 <= i < index@.len() ==> r@[i] == index@[i].offset as u64,
{
    let mut offsets: Vec<u64> = Vec::new();
    let mut k: usize = 0;
    while k < index.len()
        invariant
            k <= index@.len(),
            offsets@.len() == k,
            forall|i: int| 0 <= i < k ==> offsets@[i] == index@[i].offset as u64,
        decreases index@.len() - k,
    {
        offsets.push(index[k].offset as u64);
        k = k + 1;
    }
    offsets
}

/// Takes host ownership of the accelerator's raw result buffer. Succeeds if
/// and only if the accelerator delivered exactly one flag per packet of the
/// `packet_count`-sized index; a nonzero flag means the packet passed.
pub fn recover_pass_vector(raw: Vec<u32>, packet_count: usize) -> (r: Result<
    PassVector,
    OffloadError,
>)
    ensures
        r is Ok <==> raw@.len() == packet_count,
        r matches Ok(pv) ==> pv@.len() == packet_count && forall|i: int|
            0 <= i < packet_count ==> pv@[i] == (raw@[i] != 0),
        r is Err ==> r == Result::<PassVector, OffloadError>::Err(
            OffloadError::ResultLengthMismatch,
        ),
{
    if raw.len() != packet_count {
        return Err(OffloadError::ResultLengthMismatch);
    }
    let mut flags: Vec<bool> = Vec::new();
    let mut k: usize = 0;
    while k < raw.len()
        invariant
            k <= raw@.len(),
            flags@.len() == k,
            forall|i: int| 0 <= i < k ==> flags@[i] == (raw@[i] != 0),
        decreases raw@.len() - k,
    {
        flags.push(raw[k] != 0);
        k = k + 1;
    }
    Ok(PassVector { flags })
}

} // verus!
