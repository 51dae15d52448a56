//! Partitioned traffic aggregation: turns the packets that passed the filter
//! into a source/destination flow-count matrix.
//!
//! The packet index is split into contiguous, near-equal ranges, one per
//! worker; each range is folded into a private partial matrix, and the
//! partial matrices are merged. Merging adds counts pointwise, which is
//! associative and commutative, so the final matrix depends only on the set
//! of passing packets and never on the worker count or the merge order.

use crate::offload::PassVector;
use crate::reader::be_u32_at;
use crate::reader::read_u32_be;
use crate::reader::PacketDescriptor;
use crate::reader::RECORD_HEADER_BYTES;
use vstd::prelude::*;

verus! {

broadcast use vstd::slice::axiom_spec_len;

/// Size in bytes of an untagged Ethernet II frame header.
pub const ETHERNET_HEADER_BYTES: usize = 14;

/// Offset of the source address field inside an IPv4 header.
pub const IPV4_SRC_FIELD_OFFSET: usize = 12;

/// Offset of the destination address field inside an IPv4 header.
pub const IPV4_DST_FIELD_OFFSET: usize = 16;

/// Offset of a packet's IPv4 source address from the start of its record.
pub const SRC_ADDR_OFFSET: usize = RECORD_HEADER_BYTES + ETHERNET_HEADER_BYTES
    + IPV4_SRC_FIELD_OFFSET;

/// Offset of a packet's IPv4 destination address from the start of its record.
pub const DST_ADDR_OFFSET: usize = RECORD_HEADER_BYTES + ETHERNET_HEADER_BYTES
    + IPV4_DST_FIELD_OFFSET;

/// Bytes a record must reach into the buffer so that both address fields of
/// its frame can be read.
pub const FRAME_ADDR_SPAN: usize = DST_ADDR_OFFSET + 4;

/// The flow count a matrix gives to the source/destination pair `k`; a pair
/// the matrix does not hold has count zero.
pub open spec fn flow_count(m: Map<(u32, u32), nat>, k: (u32, u32)) -> nat {
    if m.contains_key(k) {
        m[k]
    } else {
        0
    }
}

/// The pointwise sum of two traffic matrices: a pair is present if it is
/// present in either, and its count is the sum of the two counts.
pub open spec fn matrix_add(a: Map<(u32, u32), nat>, b: Map<(u32, u32), nat>) -> Map<
    (u32, u32),
    nat,
> {
    Map::new(
        |k: (u32, u32)| a.contains_key(k) || b.contains_key(k),
        |k: (u32, u32)| flow_count(a, k) + flow_count(b, k),
    )
}

/// The matrix `m` with one more observation of the pair `k`.
pub open spec fn bump(m: Map<(u32, u32), nat>, k: (u32, u32)) -> Map<(u32, u32), nat> {
    m.insert(k, (flow_count(m, k) + 1) as nat)
}

/// The traffic matrix of a sequence of observed source/destination pairs.
pub open spec fn matrix_of(pairs: Seq<(u32, u32)>) -> Map<(u32, u32), nat>
    decreases pairs.len(),
{
    if pairs.len() == 0 {
        Map::empty()
    } else {
        bump(matrix_of(pairs.drop_last()), pairs.last())
    }
}

/// The source and destination IPv4 addresses of the frame stored in the
/// record `d`, assuming an untagged Ethernet II frame carrying IPv4.
pub open spec fn endpoints_of(s: Seq<u8>, d: PacketDescriptor) -> (u32, u32) {
    (
        be_u32_at(s, d.offset + SRC_ADDR_OFFSET) as u32,
        be_u32_at(s, d.offset + DST_ADDR_OFFSET) as u32,
    )
}

/// The source/destination pairs of the packets marked passing, in packet-id
/// order.
pub open spec fn pass_pairs(s: Seq<u8>, index: Seq<PacketDescriptor>, pass: Seq<bool>) -> Seq<
    (u32, u32),
>
    decreases index.len(),
{
    if index.len() == 0 {
        Seq::empty()
    } else {
        let init = pass_pairs(s, index.drop_last(), pass.drop_last());
        if pass[index.len() - 1] {
            init.push(endpoints_of(s, index.last()))
        } else {
            init
        }
    }
}

/// The source/destination pair an entry counts.
pub open spec fn entry_key(e: (u32, u32, usize)) -> (u32, u32) {
    (e.0, e.1)
}

/// The matrix held by a list of entries; a later entry for a pair overrides
/// an earlier one, so on lists with unique keys each entry speaks for itself.
pub open spec fn map_of_entries(s: Seq<(u32, u32, usize)>) -> Map<(u32, u32), nat>
    decreases s.len(),
{
    if s.len() == 0 {
        Map::empty()
    } else {
        map_of_entries(s.drop_last()).insert(entry_key(s.last()), s.last().2 as nat)
    }
}

/// The entry keys of `s` are pairwise distinct.
pub open spec fn unique_keys(s: Seq<(u32, u32, usize)>) -> bool {
    forall|i: int, j: int| 0 <= i < j < s.len() ==> entry_key(s[i]) != entry_key(s[j])
}

proof fn lemma_key_absent(s: Seq<(u32, u32, usize)>, k: (u32, u32))
    requires
        forall|i: int| 0 <= i < s.len() ==> entry_key(s[i]) != k,
    ensures
        !map_of_entries(s).contains_key(k),
    decreases s.len(),
{
    if s.len() > 0 {
        assert(forall|i: int|
            0 <= i < s.drop_last().len() ==> entry_key(s.drop_last()[i]) != k);
        lemma_key_absent(s.drop_last(), k);
    }
}

proof fn lemma_entry_lookup(s: Seq<(u32, u32, usize)>, i: int)
    requires
        0 <= i < s.len(),
        unique_keys(s),
    ensures
        map_of_entries(s).contains_key(entry_key(s[i])),
        map_of_entries(s)[entry_key(s[i])] == s[i].2 as nat,
    decreases s.len(),
{
    if i < s.len() - 1 {
        assert(unique_keys(s.drop_last())) by {
            assert(forall|p: int, q: int|
                0 <= p < q < s.drop_last().len() ==> entry_key(s.drop_last()[p]) != entry_key(
                    s.drop_last()[q],
                ));
        }
        lemma_entry_lookup(s.drop_last(), i);
        assert(entry_key(s[i]) != entry_key(s.last()));
    }
}

/// A source-to-destination flow-count matrix, built per worker and merged.
pub struct TrafficMatrix {
    entries: Vec<(u32, u32, usize)>,
}

impl View for TrafficMatrix {
    type V = Map<(u32, u32), nat>;

    closed spec fn view(&self) -> Map<(u32, u32), nat> {
        map_of_entries(self.entries@)
    }
}

impl TrafficMatrix {
    /// Well-formedness: each source/destination pair is held by at most one
    /// entry, and only observed pairs (count at least one) are held.
    pub closed spec fn inv(&self) -> bool {
        unique_keys(self.entries@) && (forall|i: int|
            0 <= i < self.entries@.len() ==> self.entries@[i].2 >= 1)
    }

    /// The empty matrix: no pair has been observed.
    pub fn new() -> (r: TrafficMatrix)
        ensures
            r.inv(),
            r@ == Map::<(u32, u32), nat>::empty(),
    {
        TrafficMatrix { entries: Vec::new() }
    }

    /// The flow count recorded for one source/destination pair.
    pub fn count_for(&self, src: u32, dst: u32) -> (r: usize)
        requires
            self.inv(),
        ensures
            r == flow_count(self@, (src, dst)),
    {
        let ghost s = self.entries@;
        let mut k: usize = 0;
        while k < self.entries.len()
            invariant
                k <= s.len(),
                s == self.entries@,
                self.inv(),
                forall|i: int| 0 <= i < k ==> entry_key(s[i]) != (src, dst),
            decreases s.len() - k,
        {
            let e = self.entries[k];
            if e.0 == src && e.1 == dst {
                proof {
                    lemma_entry_lookup(s, k as int);
                }
                return e.2;
            }
            k = k + 1;
        }
        proof {
            lemma_key_absent(s, (src, dst));
        }
        0
    }

    /// Adds `n` observations of the pair `(src, dst)`.
    fn add_count(&mut self, src: u32, dst: u32, n: usize)
        requires
            old(self).inv(),
            n >= 1,
            flow_count(old(self)@, (src, dst)) + n <= usize::MAX,
        ensures
            final(self).inv(),
            final(self)@ == old(self)@.insert(
                (src, dst),
                (flow_count(old(self)@, (src, dst)) + n) as nat,
            ),
    {
        let ghost s = self.entries@;
        let mut k: usize = 0;
        while k < self.entries.len()
            invariant
                k <= s.len(),
                s == self.entries@,
                s == old(self).entries@,
                self.inv(),
                n >= 1,
                flow_count(map_of_entries(s), (src, dst)) + n <= usize::MAX,
                forall|i: int| 0 <= i < k ==> entry_key(s[i]) != (src, dst),
            decreases s.len() - k,
        {
            let e = self.entries[k];
            if e.0 == src && e.1 == dst {
                proof {
                    assert(entry_key(s[k as int]) == (src, dst));
                    lemma_entry_lookup(s, k as int);
                    assert(flow_count(map_of_entries(s), (src, dst)) == e.2 as nat);
                }
                self.entries[k] = (e.0, e.1, e.2 + n);
                proof {
                    lemma_map_update(s, k as int, (e.0, e.1, (e.2 + n) as usize));
                    assert(forall|i: int|
                        0 <= i < self.entries@.len() ==> self.entries@[i].2 >= 1);
                }
                return ;
            }
            k = k + 1;
        }
        proof {
            lemma_key_absent(s, (src, dst));
        }
        self.entries.push((src, dst, n));
        proof {
            assert(self.entries@.drop_last() =~= s);
        }
    }

    /// Records one observation of the pair `(src, dst)`.
    pub fn record_flow(&mut self, src: u32, dst: u32)
        requires
            old(self).inv(),
            flow_count(old(self)@, (src, dst)) < usize::MAX,
        ensures
            final(self).inv(),
            final(self)@ == bump(old(self)@, (src, dst)),
    {
        self.add_count(src, dst, 1);
    }

    /// Folds another partial matrix into this one: afterwards this matrix is
    /// the pointwise sum of the two.
    pub fn merge(&mut self, other: &TrafficMatrix)
        requires
            old(self).inv(),
            other.inv(),
            forall|k: (u32, u32)|
                flow_count(old(self)@, k) + flow_count(other@, k) <= usize::MAX,
        ensures
            final(self).inv(),
            final(self)@ == matrix_add(old(self)@, other@),
    {
        let ghost o = other.entries@;
        proof {
            assert(matrix_add(old(self)@, map_of_entries(o.subrange(0, 0))) =~= old(self)@);
        }
        let mut k: usize = 0;
        while k < other.entries.len()
            invariant
                k <= o.len(),
                o == other.entries@,
                other.inv(),
                self.inv(),
                forall|kk: (u32, u32)|
                    flow_count(old(self)@, kk) + flow_count(other@, kk) <= usize::MAX,
                self@ == matrix_add(old(self)@, map_of_entries(o.subrange(0, k as int))),
            decreases o.len() - k,
        {
            let ghost prefix = o.subrange(0, k as int);
            let ghost prev = self@;
            let e = other.entries[k];
            proof {
                assert(e == o[k as int]);
                lemma_entry_lookup(o, k as int);
                assert(forall|i: int| 0 <= i < k ==> entry_key(prefix[i]) != entry_key(e));
                lemma_key_absent(prefix, entry_key(e));
                lemma_flow_add(old(self)@, map_of_entries(prefix), entry_key(e));
                assert(flow_count(prev, entry_key(e)) == flow_count(old(self)@, entry_key(e)));
                assert(flow_count(other@, entry_key(e)) == e.2 as nat);
            }
            self.add_count(e.0, e.1, e.2);
            proof {
                assert(o.subrange(0, k as int + 1).drop_last() =~= prefix);
                let stepped = map_of_entries(prefix).insert(entry_key(e), e.2 as nat);
                assert(map_of_entries(o.subrange(0, k as int + 1)) == stepped);
                assert(self@ =~= matrix_add(old(self)@, stepped)) by {
                    lemma_flow_add(old(self)@, stepped, entry_key(e));
                    assert forall|kk: (u32, u32)| kk != entry_key(e) implies #[trigger] flow_count(
                        matrix_add(old(self)@, stepped),
                        kk,
                    ) == flow_count(prev, kk) by {
                        lemma_flow_add(old(self)@, stepped, kk);
                        lemma_flow_add(old(self)@, map_of_entries(prefix), kk);
                    }
                }
            }
            k = k + 1;
        }
        proof {
            assert(o.subrange(0, o.len() as int) =~= o);
        }
    }

    /// The recorded flows as plain entries: one `(source, destination,
    /// count)` triple per observed pair, each pair at most once.
    pub fn flows(&self) -> (r: Vec<(u32, u32, usize)>)
        requires
            self.inv(),
        ensures
            map_of_entries(r@) == self@,
            unique_keys(r@),
            forall|i: int| 0 <= i < r@.len() ==> (#[trigger] r@[i]).2 >= 1,
            r@.len() == self@.dom().len(),
    {
        let ghost s = self.entries@;
        let mut r: Vec<(u32, u32, usize)> = Vec::new();
        let mut k: usize = 0;
        while k < self.entries.len()
            invariant
                k <= s.len(),
                s == self.entries@,
                r@ =~= s.subrange(0, k as int),
            decreases s.len() - k,
        {
            r.push(self.entries[k]);
            k = k + 1;
        }
        proof {
            assert(r@ =~= s);
            lemma_map_len(s);
        }
        r
    }

    /// How many distinct source/destination pairs the matrix holds.
    pub fn flow_pair_count(&self) -> (r: usize)
        requires
            self.inv(),
        ensures
            r == self@.dom().len(),
    {
        proof {
            lemma_map_len(self.entries@);
        }
        self.entries.len()
    }
}

proof fn lemma_flow_add(a: Map<(u32, u32), nat>, b: Map<(u32, u32), nat>, k: (u32, u32))
    ensures
        flow_count(matrix_add(a, b), k) == flow_count(a, k) + flow_count(b, k),
{
}

proof fn lemma_map_len(s: Seq<(u32, u32, usize)>)
    requires
        unique_keys(s),
    ensures
        map_of_entries(s).dom().finite(),
        map_of_entries(s).dom().len() == s.len(),
    decreases s.len(),
{
    if s.len() == 0 {
        assert(map_of_entries(s).dom() =~= Set::<(u32, u32)>::empty());
    } else {
        assert(unique_keys(s.drop_last())) by {
            assert(forall|p: int, q: int|
                0 <= p < q < s.drop_last().len() ==> entry_key(s.drop_last()[p]) != entry_key(
                    s.drop_last()[q],
                ));
        }
        lemma_map_len(s.drop_last());
        assert(forall|i: int|
            0 <= i < s.drop_last().len() ==> entry_key(s.drop_last()[i]) != entry_key(s.last()));
        lemma_key_absent(s.drop_last(), entry_key(s.last()));
        assert(map_of_entries(s).dom() =~= map_of_entries(s.drop_last()).dom().insert(
            entry_key(s.last()),
        ));
        vstd::set::axiom_set_insert_len(map_of_entries(s.drop_last()).dom(), entry_key(s.last()));
    }
}

/// Law: no pair is counted more often than there are observations.
pub proof fn lemma_count_le_len(pairs: Seq<(u32, u32)>, k: (u32, u32))
    ensures
        flow_count(matrix_of(pairs), k) <= pairs.len(),
    decreases pairs.len(),
{
    if pairs.len() > 0 {
        lemma_count_le_len(pairs.drop_last(), k);
    }
}

/// Law: a filter passes no more pairs than there are packets.
pub proof fn lemma_pass_pairs_len(s: Seq<u8>, index: Seq<PacketDescriptor>, pass: Seq<bool>)
    ensures
        pass_pairs(s, index, pass).len() <= index.len(),
    decreases index.len(),
{
    if index.len() > 0 {
        lemma_pass_pairs_len(s, index.drop_last(), pass.drop_last());
    }
}

/// Law: splitting the packet range splits the passing pairs. The pairs that
/// pass over two adjacent ranges, taken together in order, are exactly the
/// pairs that pass over the combined range.
pub proof fn lemma_pass_pairs_concat(
    s: Seq<u8>,
    i1: Seq<PacketDescriptor>,
    p1: Seq<bool>,
    i2: Seq<PacketDescriptor>,
    p2: Seq<bool>,
)
    requires
        i1.len() == p1.len(),
        i2.len() == p2.len(),
    ensures
        pass_pairs(s, i1 + i2, p1 + p2) == pass_pairs(s, i1, p1) + pass_pairs(s, i2, p2),
    decreases i2.len(),
{
    if i2.len() == 0 {
        assert(i1 + i2 =~= i1);
        assert(p1 + p2 =~= p1);
        assert(pass_pairs(s, i1, p1) + pass_pairs(s, i2, p2) =~= pass_pairs(s, i1, p1));
    } else {
        lemma_pass_pairs_concat(s, i1, p1, i2.drop_last(), p2.drop_last());
        assert((i1 + i2).drop_last() =~= i1 + i2.drop_last());
        assert((p1 + p2).drop_last() =~= p1 + p2.drop_last());
        assert((i1 + i2).last() == i2.last());
        assert((p1 + p2)[(i1 + i2).len() - 1] == p2[i2.len() - 1]);
        if p2[i2.len() - 1] {
            assert(pass_pairs(s, i1, p1) + pass_pairs(s, i2.drop_last(), p2.drop_last()).push(
                endpoints_of(s, i2.last()),
            ) =~= (pass_pairs(s, i1, p1) + pass_pairs(s, i2.drop_last(), p2.drop_last())).push(
                endpoints_of(s, i2.last()),
            ));
        }
    }
}

proof fn lemma_bump_add(a: Map<(u32, u32), nat>, b: Map<(u32, u32), nat>, k: (u32, u32))
    ensures
        matrix_add(a, bump(b, k)) == bump(matrix_add(a, b), k),
{
    assert(matrix_add(a, bump(b, k)) =~= bump(matrix_add(a, b), k)) by {
        lemma_flow_add(a, b, k);
        assert(forall|kk: (u32, u32)|
            kk != k ==> flow_count(bump(b, k), kk) == flow_count(b, kk));
        assert(flow_count(bump(b, k), k) == flow_count(b, k) + 1);
    }
}

/// Law: merging is concatenation. The pointwise sum of the matrices of two
/// pair sequences is the matrix of the sequences laid end to end, so partial
/// matrices built over adjacent ranges merge into the matrix of the whole.
pub proof fn lemma_matrix_of_concat(p1: Seq<(u32, u32)>, p2: Seq<(u32, u32)>)
    ensures
        matrix_of(p1 + p2) == matrix_add(matrix_of(p1), matrix_of(p2)),
    decreases p2.len(),
{
    if p2.len() == 0 {
        assert(p1 + p2 =~= p1);
        assert(matrix_add(matrix_of(p1), matrix_of(p2)) =~= matrix_of(p1)) by {
            assert(forall|kk: (u32, u32)| flow_count(Map::<(u32, u32), nat>::empty(), kk) == 0);
        }
    } else {
        lemma_matrix_of_concat(p1, p2.drop_last());
        assert((p1 + p2).drop_last() =~= p1 + p2.drop_last());
        assert((p1 + p2).last() == p2.last());
        lemma_bump_add(matrix_of(p1), matrix_of(p2.drop_last()), p2.last());
    }
}

/// Law: merge is commutative. Merging two partial matrices gives the same
/// matrix in either order.
pub proof fn lemma_matrix_add_comm(a: Map<(u32, u32), nat>, b: Map<(u32, u32), nat>)
    ensures
        matrix_add(a, b) == matrix_add(b, a),
{
    assert(matrix_add(a, b) =~= matrix_add(b, a));
}

/// Law: merge is associative. Merging partial matrices in any grouping gives
/// the same matrix, so a sequential fold and a pairwise tree-reduce agree.
pub proof fn lemma_matrix_add_assoc(
    a: Map<(u32, u32), nat>,
    b: Map<(u32, u32), nat>,
    c: Map<(u32, u32), nat>,
)
    ensures
        matrix_add(matrix_add(a, b), c) == matrix_add(a, matrix_add(b, c)),
{
    assert(matrix_add(matrix_add(a, b), c) =~= matrix_add(a, matrix_add(b, c))) by {
        assert forall|kk: (u32, u32)| #![auto]
            flow_count(matrix_add(a, b), kk) == flow_count(a, kk) + flow_count(b, kk)
                && flow_count(matrix_add(b, c), kk) == flow_count(b, kk) + flow_count(c, kk) by {
            lemma_flow_add(a, b, kk);
            lemma_flow_add(b, c, kk);
        }
    }
}

/// Aggregates one worker's contiguous range `[start, end)` of the packet
/// index into a private partial matrix: every packet of the range whose flag
/// is set contributes one observation of its frame's source/destination pair.
pub fn aggregate_range(
    pcap: &[u8],
    index: &Vec<PacketDescriptor>,
    pass: &PassVector,
    start: usize,
    end: usize,
) -> (r: TrafficMatrix)
    requires
        start <= end <= index@.len(),
        pass@.len() == index@.len(),
        forall|i: int|
            start <= i < end && pass@[i] ==> index@[i].offset + FRAME_ADDR_SPAN <= pcap@.len(),
    ensures
        r.inv(),
        r@ == matrix_of(
            pass_pairs(
                pcap@,
                index@.subrange(start as int, end as int),
                pass@.subrange(start as int, end as int),
            ),
        ),
{
    let ghost s = pcap@;
    let n = pcap.len();
    let mut m = TrafficMatrix::new();
    proof {
        assert(pass_pairs(
            s,
            index@.subrange(start as int, start as int),
            pass@.subrange(start as int, start as int),
        ) =~= Seq::<(u32, u32)>::empty());
    }
    let mut k: usize = start;
    while k < end
        invariant
            start <= k <= end <= index@.len(),
            pass@.len() == index@.len(),
            s == pcap@,
            n == pcap@.len(),
            forall|i: int|
                start <= i < end && pass@[i] ==> index@[i].offset + FRAME_ADDR_SPAN
                    <= pcap@.len(),
            m.inv(),
            m@ == matrix_of(
                pass_pairs(
                    s,
                    index@.subrange(start as int, k as int),
                    pass@.subrange(start as int, k as int),
                ),
            ),
        decreases end - k,
    {
        let ghost pre = pass_pairs(
            s,
            index@.subrange(start as int, k as int),
            pass@.subrange(start as int, k as int),
        );
        proof {
            assert(index@.subrange(start as int, k as int + 1).drop_last() =~= index@.subrange(
                start as int,
                k as int,
            ));
            assert(pass@.subrange(start as int, k as int + 1).drop_last() =~= pass@.subrange(
                start as int,
                k as int,
            ));
            assert(pass@.subrange(start as int, k as int + 1)[k - start] == pass@[k as int]);
            assert(index@.subrange(start as int, k as int + 1).last() == index@[k as int]);
        }
        if pass.get(k) {
            let d = index[k];
            let src = read_u32_be(pcap, d.offset + SRC_ADDR_OFFSET);
            let dst = read_u32_be(pcap, d.offset + DST_ADDR_OFFSET);
            proof {
                assert(0 <= be_u32_at(s, d.offset + SRC_ADDR_OFFSET) <= u32::MAX);
                assert(0 <= be_u32_at(s, d.offset + DST_ADDR_OFFSET) <= u32::MAX);
                assert(endpoints_of(s, d) == (src, dst));
                lemma_pass_pairs_len(
                    s,
                    index@.subrange(start as int, k as int),
                    pass@.subrange(start as int, k as int),
                );
                lemma_count_le_len(pre, (src, dst));
            }
            m.record_flow(src, dst);
            proof {
                let x = endpoints_of(s, index@[k as int]);
                assert(pass_pairs(
                    s,
                    index@.subrange(start as int, k as int + 1),
                    pass@.subrange(start as int, k as int + 1),
                ) == pre.push(x));
                assert(pre.push(x).drop_last() =~= pre);
                assert(pre.push(x).last() == x);
                assert(matrix_of(pre.push(x)) == bump(matrix_of(pre), x));
                assert(m@ == matrix_of(pre.push(x)));
            }
        } else {
            proof {
                assert(pass_pairs(
                    s,
                    index@.subrange(start as int, k as int + 1),
                    pass@.subrange(start as int, k as int + 1),
                ) == pre);
            }
        }
        k = k + 1;
    }
    m
}

/// Aggregates the whole capture: splits the packet ids into `worker_count`
/// contiguous near-equal ranges, folds each range into a partial matrix, and
/// merges the partial matrices. The result is the matrix of all passing
/// packets; it does not depend on `worker_count`, so any two worker pools
/// over the same packets and flags compute the same traffic matrix.
pub fn aggregate(
    pcap: &[u8],
    index: &Vec<PacketDescriptor>,
    pass: &PassVector,
    worker_count: usize,
) -> (r: TrafficMatrix)
    requires
        worker_count >= 1,
        pass@.len() == index@.len(),
        forall|i: int|
            0 <= i < index@.len() && pass@[i] ==> index@[i].offset + FRAME_ADDR_SPAN
                <= pcap@.len(),
    ensures
        r.inv(),
        r@ == matrix_of(pass_pairs(pcap@, index@, pass@)),
{
    let ghost s = pcap@;
    let n = index.len();
    let mut merged = TrafficMatrix::new();
    if n == 0 {
        proof {
            assert(pass_pairs(s, index@, pass@) =~= Seq::<(u32, u32)>::empty());
        }
        return merged;
    }
    let chunk = 1 + (n - 1) / worker_count;
    proof {
        assert(pass_pairs(s, index@.subrange(0, 0), pass@.subrange(0, 0)) =~= Seq::<
            (u32, u32),
        >::empty());
    }
    let mut start: usize = 0;
    while start < n
        invariant
            start <= n,
            n == index@.len(),
            pass@.len() == index@.len(),
            s == pcap@,
            chunk >= 1,
            forall|i: int|
                0 <= i < index@.len() && pass@[i] ==> index@[i].offset + FRAME_ADDR_SPAN
                    <= pcap@.len(),
            merged.inv(),
            merged@ == matrix_of(
                pass_pairs(s, index@.subrange(0, start as int), pass@.subrange(0, start as int)),
            ),
        decreases n - start,
    {
        let end = if n - start < chunk {
            n
        } else {
            start + chunk
        };
        let part = aggregate_range(pcap, index, pass, start, end);
        proof {
            let ia = index@.subrange(0, start as int);
            let pa = pass@.subrange(0, start as int);
            let ib = index@.subrange(start as int, end as int);
            let pb = pass@.subrange(start as int, end as int);
            assert(ia + ib =~= index@.subrange(0, end as int));
            assert(pa + pb =~= pass@.subrange(0, end as int));
            lemma_pass_pairs_concat(s, ia, pa, ib, pb);
            lemma_matrix_of_concat(pass_pairs(s, ia, pa), pass_pairs(s, ib, pb));
            let whole = pass_pairs(s, index@.subrange(0, end as int), pass@.subrange(
                0,
                end as int,
            ));
            lemma_pass_pairs_len(s, index@.subrange(0, end as int), pass@.subrange(0, end as int));
            assert forall|kk: (u32, u32)| flow_count(merged@, kk) + flow_count(part@, kk)
                <= usize::MAX by {
                lemma_flow_add(merged@, part@, kk);
                lemma_count_le_len(whole, kk);
            }
        }
        merged.merge(&part);
        start = end;
    }
    proof {
        assert(index@.subrange(0, n as int) =~= index@);
        assert(pass@.subrange(0, n as int) =~= pass@);
    }
    merged
}

proof fn lemma_map_update(s: Seq<(u32, u32, usize)>, i: int, e: (u32, u32, usize))
    requires
        0 <= i < s.len(),
        unique_keys(s),
        entry_key(e) == entry_key(s[i]),
    ensures
        map_of_entries(s.update(i, e)) == map_of_entries(s).insert(entry_key(e), e.2 as nat),
        unique_keys(s.update(i, e)),
    decreases s.len(),
{
    let t = s.update(i, e);
    assert(unique_keys(t)) by {
        assert(forall|p: int| 0 <= p < t.len() ==> entry_key(t[p]) == entry_key(s[p]));
    }
    if i == s.len() - 1 {
        assert(t.drop_last() =~= s.drop_last());
        assert(t.last() == e);
        assert(map_of_entries(s).insert(entry_key(e), e.2 as nat) =~= map_of_entries(
            s.drop_last(),
        ).insert(entry_key(e), e.2 as nat));
    } else {
        assert(unique_keys(s.drop_last())) by {
            assert(forall|p: int, q: int|
                0 <= p < q < s.drop_last().len() ==> entry_key(s.drop_last()[p]) != entry_key(
                    s.drop_last()[q],
                ));
        }
        lemma_map_update(s.drop_last(), i, e);
        assert(t.drop_last() =~= s.drop_last().update(i, e));
        assert(t.last() == s.last());
        assert(entry_key(s.last()) != entry_key(e));
        assert(map_of_entries(t) == map_of_entries(s.drop_last()).insert(
            entry_key(e),
            e.2 as nat,
        ).insert(entry_key(s.last()), s.last().2 as nat));
        assert(map_of_entries(s.drop_last()).insert(entry_key(e), e.2 as nat).insert(
            entry_key(s.last()),
            s.last().2 as nat,
        ) =~= map_of_entries(s.drop_last()).insert(entry_key(s.last()), s.last().2 as nat).insert(
            entry_key(e),
            e.2 as nat,
        ));
    }
}

} // verus!
