//! The striped storage abstraction.
//!
//! A backing array stripes a growing bit sequence round-robin across a
//! fixed set of data disks: global index `i` lives on disk
//! `i % disk_count` at offset `i / disk_count`. The orchestrator consumes
//! the array through the `Storage` capability trait, so any conforming
//! implementation can back it.

use vstd::prelude::*;

pub mod disks;
pub mod raid;

verus! {

use core::ops::Range;

/// How many bits disk `d` holds once `n` bits have been striped
/// round-robin over `dc` disks.
pub open spec fn stripe_disk_len(n: int, dc: int, d: int) -> int {
    n / dc + if d < n % dc {
        1int
    } else {
        0int
    }
}

/// Is layer `k` fully written once `n` bits have been striped over `dc`
/// disks?
pub open spec fn layer_full(n: int, dc: int, k: int) -> bool {
    (k + 1) * dc <= n
}

/// The data bits of layer `k`: one bit per disk, in disk order.
pub open spec fn layer_data(bits: Seq<bool>, dc: int, k: int) -> Seq<bool> {
    Seq::new(dc as nat, |d: int| bits[k * dc + d])
}

/// `x == dc*(x/dc) + x%dc`, with the remainder in range.
pub(crate) proof fn lemma_cell_index(i: int, dc: int)
    requires
        dc >= 1,
    ensures
        i == dc * (i / dc) + i % dc,
        0 <= i % dc < dc,
{
    vstd::arithmetic::div_mod::lemma_fundamental_div_mod(i, dc);
    vstd::arithmetic::div_mod::lemma_mod_bound(i, dc);
}

/// Appending one bit advances the stripe: the next cell sits on disk
/// `n % dc`, and only that disk grows.
pub(crate) proof fn lemma_div_mod_advance(n: int, dc: int)
    requires
        n >= 0,
        dc >= 1,
    ensures
        (n + 1) % dc == (if n % dc == dc - 1 {
            0int
        } else {
            n % dc + 1
        }),
        (n + 1) / dc == n / dc + (if n % dc == dc - 1 {
            1int
        } else {
            0int
        }),
{
    lemma_cell_index(n, dc);
    if n % dc == dc - 1 {
        assert(n + 1 == (n / dc + 1) * dc + 0) by (nonlinear_arith)
            requires
                n == dc * (n / dc) + n % dc,
                n % dc == dc - 1,
        ;
        vstd::arithmetic::div_mod::lemma_fundamental_div_mod_converse(n + 1, dc, n / dc + 1, 0);
    } else {
        assert(n + 1 == (n / dc) * dc + (n % dc + 1)) by (nonlinear_arith)
            requires
                n == dc * (n / dc) + n % dc,
        ;
        vstd::arithmetic::div_mod::lemma_fundamental_div_mod_converse(n + 1, dc, n / dc, n % dc + 1);
    }
}

/// Cells on the same disk keep their write order: a smaller global index
/// with the same residue sits at a smaller offset.
pub(crate) proof fn lemma_same_residue_lt(j: int, n: int, dc: int)
    requires
        0 <= j < n,
        dc >= 1,
        j % dc == n % dc,
    ensures
        j / dc < n / dc,
{
    lemma_cell_index(j, dc);
    lemma_cell_index(n, dc);
    assert(j / dc < n / dc) by (nonlinear_arith)
        requires
            dc >= 1,
            dc * (j / dc) < dc * (n / dc),
    ;
}

/// Every written global index maps to an offset its disk already holds.
pub(crate) proof fn lemma_index_in_disk(i: int, n: int, dc: int)
    requires
        0 <= i < n,
        dc >= 1,
    ensures
        0 <= i % dc < dc,
        0 <= i / dc < stripe_disk_len(n, dc, i % dc),
{
    lemma_cell_index(i, dc);
    lemma_cell_index(n, dc);
    vstd::arithmetic::div_mod::lemma_div_is_ordered(i, n, dc);
    vstd::arithmetic::div_mod::lemma_div_pos_is_pos(i, dc);
}

/// The cell of layer `k` on disk `d` has global index `k*dc + d`.
pub(crate) proof fn lemma_layer_cell(k: int, d: int, dc: int)
    requires
        k >= 0,
        0 <= d < dc,
    ensures
        (k * dc + d) % dc == d,
        (k * dc + d) / dc == k,
        k * dc + d >= 0,
{
    vstd::arithmetic::div_mod::lemma_fundamental_div_mod_converse(k * dc + d, dc, k, d);
    assert(k * dc + d >= 0) by (nonlinear_arith)
        requires
            k >= 0,
            d >= 0,
            dc >= 1,
    ;
}

/// A layer is full exactly when the stripe count has moved past it.
pub(crate) proof fn lemma_layer_full_div(n: int, dc: int, k: int)
    requires
        n >= 0,
        dc >= 1,
        k >= 0,
    ensures
        layer_full(n, dc, k) == (k < n / dc),
{
    lemma_cell_index(n, dc);
    if layer_full(n, dc, k) {
        vstd::arithmetic::div_mod::lemma_div_is_ordered((k + 1) * dc, n, dc);
        vstd::arithmetic::div_mod::lemma_div_by_multiple(k + 1, dc);
    }
    if k < n / dc {
        assert((k + 1) * dc <= dc * (n / dc)) by (nonlinear_arith)
            requires
                dc >= 1,
                k + 1 <= n / dc,
        ;
    }
}

/// The capability set the orchestrator works against: a fixed array of
/// equal-capacity disks striping a growing bit sequence, with layer
/// accessors and a single-bit flip used only for error correction.
pub trait Storage: Sized {
    /// The well-formedness invariant of the backing array.
    spec fn wf(&self) -> bool;

    /// All bits written so far, in write order.
    spec fn bits(&self) -> Seq<bool>;

    /// Number of data disks.
    spec fn disk_count_spec(&self) -> int;

    /// Fixed capacity of each disk, in bits.
    spec fn disk_capacity_spec(&self) -> int;

    /// Basic consequences of well-formedness that callers may rely on.
    proof fn wf_properties(&self)
        requires
            self.wf(),
        ensures
            self.disk_count_spec() >= 1,
            self.disk_capacity_spec() >= 0,
            self.bits().len() <= self.disk_count_spec() * self.disk_capacity_spec(),
            self.bits().len() <= usize::MAX,
    ;

    fn disk_count(&self) -> (r: usize)
        requires
            self.wf(),
        ensures
            r == self.disk_count_spec(),
    ;

    fn disk_capacity(&self) -> (r: usize)
        requires
            self.wf(),
        ensures
            r == self.disk_capacity_spec(),
    ;

    /// Appends the bits round-robin; fails without writing anything when
    /// they would not leave the array's final slot free.
    fn write_sequence(&mut self, bits: &[bool]) -> (r: Result<(), String>)
        requires
            old(self).wf(),
        ensures
            final(self).wf(),
            final(self).disk_count_spec() == old(self).disk_count_spec(),
            final(self).disk_capacity_spec() == old(self).disk_capacity_spec(),
            (match r {
                Ok(()) => old(self).bits().len() + bits@.len() < old(self).disk_count_spec()
                    * old(self).disk_capacity_spec() && final(self).bits() == old(self).bits()
                    + bits@,
                Err(e) => *final(self) == *old(self) && old(self).bits().len() + bits@.len()
                    >= old(self).disk_count_spec() * old(self).disk_capacity_spec() && e@
                    == no_space_message(),
            }),
    ;

    /// The bit at a global index, or `None` past the written prefix.
    fn get_bit(&self, index: usize) -> (r: Option<bool>)
        requires
            self.wf(),
        ensures
            r == (if index < self.bits().len() {
                Some(self.bits()[index as int])
            } else {
                Option::<bool>::None
            }),
    ;

    /// The written bits of a half-open index range, in order.
    fn get_slice(&self, range: Range<usize>) -> (r: Result<Vec<bool>, String>)
        requires
            self.wf(),
        ensures
            (match r {
                Ok(v) => range.end <= self.bits().len() && v@ == (if range.start <= range.end {
                    self.bits().subrange(range.start as int, range.end as int)
                } else {
                    Seq::<bool>::empty()
                }),
                Err(e) => range.end > self.bits().len() && e@ == slice_range_message(),
            }),
    ;

    /// How many full stripes have been written.
    fn last_layer(&self) -> (r: usize)
        requires
            self.wf(),
        ensures
            r == self.bits().len() as int / self.disk_count_spec(),
    ;

    /// The data bits of a fully written layer, one per disk, in disk
    /// order; fails while the layer is still partial.
    fn get_data_layer(&self, layer_index: usize) -> (r: Result<Vec<bool>, String>)
        requires
            self.wf(),
        ensures
            (match r {
                Ok(v) => layer_full(
                    self.bits().len() as int,
                    self.disk_count_spec(),
                    layer_index as int,
                ) && v@ == layer_data(self.bits(), self.disk_count_spec(), layer_index as int),
                Err(e) => !layer_full(
                    self.bits().len() as int,
                    self.disk_count_spec(),
                    layer_index as int,
                ) && e@ == layer_not_full_message(),
            }),
    ;

    /// The layer a global index belongs to.
    fn get_layer_number(&self, index: usize) -> (r: usize)
        requires
            self.wf(),
        ensures
            r == index as int / self.disk_count_spec(),
    ;

    /// A view of one data disk.
    fn get_disk(&self, index: usize) -> (r: &disks::Disk)
        requires
            self.wf(),
            index < self.disk_count_spec(),
        ensures
            r.info@.len() == stripe_disk_len(
                self.bits().len() as int,
                self.disk_count_spec(),
                index as int,
            ),
            forall|j: int|
                0 <= j < r.info@.len() ==> r.info@[j] == self.bits()[j * self.disk_count_spec()
                    + index],
    ;

    /// Flips one already-written bit in place; the correction primitive.
    fn flip_bit_at(&mut self, index: usize)
        requires
            old(self).wf(),
            index < old(self).bits().len(),
        ensures
            final(self).wf(),
            final(self).disk_count_spec() == old(self).disk_count_spec(),
            final(self).disk_capacity_spec() == old(self).disk_capacity_spec(),
            final(self).bits() == old(self).bits().update(
                index as int,
                !old(self).bits()[index as int],
            ),
    ;
}

/// The error text reported when a write would overrun the array.
pub open spec fn no_space_message() -> Seq<char> {
    "Not enough space"@
}

/// The error text reported when a slice reaches past the written prefix.
pub open spec fn slice_range_message() -> Seq<char> {
    "End index is larger than the biggest possible index."@
}

/// The error text reported when a layer accessor runs ahead of the data.
pub open spec fn layer_not_full_message() -> Seq<char> {
    "Layer is not full"@
}

/// The error text reported when a single disk overruns its capacity.
pub open spec fn disk_full_message() -> Seq<char> {
    "Disk size limit reached."@
}

/// The error text reported when a stripe holds more bit errors than the
/// code can correct.
pub open spec fn corruption_message() -> Seq<char> {
    "Uncorrectable corruption"@
}

/// Exponent lookup for a power of two: the floor base-two logarithm,
/// found by shifting down.
pub(crate) fn get_power_of_two(num: usize) -> (r: usize)
    ensures
        r == crate::hamming::lg(num as int),
{
    let mut result = num;
    let mut count: usize = 0;
    proof {
        if num >= 1 {
            crate::hamming::lemma_lg_bound(num as int);
        }
    }
    while result > 1
        invariant
            result <= num,
            crate::hamming::lg(num as int) == crate::hamming::lg(result as int) + count,
            count <= crate::hamming::lg(num as int),
            crate::hamming::lg(num as int) < 64,
        decreases result,
    {
        result = result / 2;
        count += 1;
    }
    count
}

} // verus!
