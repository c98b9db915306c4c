//! The backing array: fixed-capacity append-only bit disks, and the
//! round-robin striped aggregate over them.

use vstd::prelude::*;

verus! {

use core::ops::Range;
use crate::raid::{
    Storage, stripe_disk_len, layer_full, layer_data, no_space_message, slice_range_message,
    layer_not_full_message, disk_full_message, lemma_cell_index, lemma_div_mod_advance,
    lemma_same_residue_lt, lemma_index_in_disk, lemma_layer_cell, lemma_layer_full_div,
};

broadcast use vstd::string::to_string_from_display_ensures_for_str;

/// The striping invariant: after any write sequence, the `i`-th bit ever
/// written is the one stored on disk `i % disk_count` at offset
/// `i / disk_count`, and that cell is in range.
pub proof fn lemma_striping(s: &DiskStorage, i: int)
    requires
        s.wf(),
        0 <= i < s.bits().len(),
    ensures
        0 <= i % (s.disk_count as int) < (s.disk_count as int),
        0 <= i / (s.disk_count as int) < s.disks@[i % (s.disk_count as int)].info@.len(),
        s.bits()[i] == s.disks@[i % s.disk_count as int].info@[i / s.disk_count as int],
{
    lemma_index_in_disk(i, s.last_index as int, s.disk_count as int);
}

/// An append-only bit store with a fixed maximum capacity.
pub struct Disk {
    /// The bits written so far, oldest first.
    pub info: Vec<bool>,
    /// The most bits this disk will ever accept.
    pub capacity: usize,
}

impl Disk {
    /// An empty disk of the given capacity.
    pub fn new(capacity: usize) -> (d: Disk)
        ensures
            d.info@.len() == 0,
            d.capacity == capacity,
    {
        Disk { info: Vec::new(), capacity }
    }

    /// Appends one bit; fails once the disk has reached its capacity.
    pub fn write_bit(&mut self, bit: bool) -> (r: Result<(), String>)
        ensures
            final(self).capacity == old(self).capacity,
            (match r {
                Ok(()) => old(self).info@.len() < old(self).capacity && final(self).info@ == old(self).info@.push(bit),
                Err(e) => old(self).info@.len() >= old(self).capacity && final(self).info@ == old(self).info@ && e@ == disk_full_message(),
            }),
    {
        if self.info.len() >= self.capacity {
            return Err("Disk size limit reached.".to_string());
        }
        self.info.push(bit);
        Ok(())
    }

    /// Flips the bit at an already-written offset in place.
    pub fn flip_at(&mut self, index: usize)
        requires
            index < old(self).info@.len(),
        ensures
            final(self).capacity == old(self).capacity,
            final(self).info@ == old(self).info@.update(
                index as int,
                !old(self).info@[index as int],
            ),
    {
        let flipped = !self.info[index];
        self.info.set(index, flipped);
    }

    /// The bit at an offset, or `None` past the written prefix.
    pub fn get(&self, index: usize) -> (r: Option<bool>)
        ensures
            r == (if index < self.info@.len() {
                Some(self.info@[index as int])
            } else {
                Option::<bool>::None
            }),
    {
        if index < self.info.len() {
            Some(self.info[index])
        } else {
            None
        }
    }

    /// The most recently written bit, or `None` on an empty disk.
    pub fn get_last(&self) -> (r: Option<bool>)
        ensures
            r == (if self.info@.len() >= 1 {
                Some(self.info@.last())
            } else {
                Option::<bool>::None
            }),
    {
        if self.info.len() == 0 {
            return None;
        }
        self.get(self.info.len() - 1)
    }
}

/// `disk_count` equal disks striping a growing bit sequence round-robin:
/// global index `i` lives on disk `i % disk_count`, offset
/// `i / disk_count`.
pub struct DiskStorage {
    /// The data disks, in stripe order.
    pub disks: Vec<Disk>,
    /// How many disks the array was built with.
    pub disk_count: usize,
    /// How many bits have been written in all.
    pub last_index: usize,
    /// How many full stripes have been written.
    pub last_layer: usize,
    /// The fixed capacity of each disk.
    pub disk_capacity: usize,
    /// `disk_count * disk_capacity`.
    pub total_capacity: usize,
}

impl DiskStorage {
    /// An array of `disk_count` empty disks, `disk_size` bits each.
    pub fn new(disk_count: usize, disk_size: usize) -> (s: DiskStorage)
        requires
            disk_count >= 1,
            disk_count * disk_size <= usize::MAX,
        ensures
            s.wf(),
            s.disk_count == disk_count,
            s.disk_capacity == disk_size,
            s.total_capacity == disk_count * disk_size,
            s.bits().len() == 0,
    {
        let mut disk_vec: Vec<Disk> = Vec::new();
        let mut i: usize = 0;
        while i < disk_count
            invariant
                i <= disk_count,
                disk_vec@.len() == i,
                forall|d: int|
                    0 <= d < i ==> (#[trigger] disk_vec@[d]).capacity == disk_size
                        && disk_vec@[d].info@.len() == 0,
            decreases disk_count - i,
        {
            disk_vec.push(Disk::new(disk_size));
            i += 1;
        }
        proof {
            vstd::arithmetic::div_mod::lemma_basic_div(0, disk_count as int);
            vstd::arithmetic::div_mod::lemma_mod_bound(0, disk_count as int);
            vstd::arithmetic::div_mod::lemma_small_mod(0, disk_count as nat);
        }
        DiskStorage {
            disk_count,
            disks: disk_vec,
            last_index: 0,
            last_layer: 0,
            disk_capacity: disk_size,
            total_capacity: disk_count * disk_size,
        }
    }

    /// Appends the bits round-robin across the disks; fails without
    /// writing anything when they would not leave the final slot free.
    pub fn write_sequence(&mut self, bits: &[bool]) -> (r: Result<(), String>)
        requires
            old(self).wf(),
        ensures
            final(self).wf(),
            final(self).disk_count == old(self).disk_count,
            final(self).disk_capacity == old(self).disk_capacity,
            final(self).total_capacity == old(self).total_capacity,
            (match r {
                Ok(()) => old(self).last_index + bits@.len() < old(self).total_capacity && final(self).bits() == old(self).bits() + bits@,
                Err(e) => *final(self) == *old(self) && old(self).last_index + bits@.len() >= old(self).total_capacity && e@ == no_space_message(),
            }),
    {
        if bits.len() >= self.total_capacity - self.last_index {
            return Err("Not enough space".to_string());
        }
        let ghost prior = *self;
        let previous_last_index = self.last_index;
        let mut index: usize = 0;
        while index < bits.len()
            invariant
                prior.wf(),
                self.disk_count == prior.disk_count,
                self.disk_capacity == prior.disk_capacity,
                self.total_capacity == prior.total_capacity,
                self.disks@.len() == self.disk_count,
                previous_last_index == prior.last_index,
                index <= bits@.len(),
                self.last_index == previous_last_index + index,
                previous_last_index + bits@.len() < self.total_capacity,
                self.last_layer == self.last_index as int / self.disk_count as int,
                forall|d: int|
                    0 <= d < self.disk_count ==> (#[trigger] self.disks@[d]).capacity
                        == self.disk_capacity,
                forall|d: int|
                    0 <= d < self.disk_count ==> (#[trigger] self.disks@[d]).info@.len()
                        == stripe_disk_len(
                        self.last_index as int,
                        self.disk_count as int,
                        d,
                    ),
                self.bits() == prior.bits() + bits@.take(index as int),
            decreases bits@.len() - index,
        {
            let ghost before = *self;
            let ghost n = self.last_index as int;
            let ghost dc = self.disk_count as int;
            let adjusted_index = (previous_last_index + index) % self.disk_count;
            proof {
                lemma_cell_index(n, dc);
                lemma_div_mod_advance(n, dc);
                assert(n / dc < self.disk_capacity) by {
                    vstd::arithmetic::div_mod::lemma_multiply_divide_lt(
                        n,
                        dc,
                        self.disk_capacity as int,
                    );
                }
            }
            self.disks[adjusted_index].write_bit(bits[index])?;
            if adjusted_index == self.disk_count - 1 {
                self.last_layer += 1;
            }
            self.last_index += 1;
            index += 1;
            proof {
                let m = self.last_index as int;
                assert forall|j: int| 0 <= j < m implies self.bits()[j] == (prior.bits()
                    + bits@.take(index as int))[j] by {
                    lemma_index_in_disk(j, m, dc);
                    if j == n {
                        assert(self.bits()[j] == bits@[index - 1]);
                    } else {
                        lemma_index_in_disk(j, n, dc);
                        if j % dc == n % dc {
                            lemma_same_residue_lt(j, n, dc);
                        }
                        assert(self.bits()[j] == before.bits()[j]);
                        assert(before.bits()[j] == (prior.bits() + bits@.take(index - 1))[j]);
                        assert((prior.bits() + bits@.take(index - 1))[j] == (prior.bits()
                            + bits@.take(index as int))[j]);
                    }
                }
                assert(self.bits() =~= prior.bits() + bits@.take(index as int));
            }
        }
        proof {
            assert(bits@.take(bits@.len() as int) =~= bits@);
        }
        Ok(())
    }

    /// The bit at a global index, or `None` past the written prefix.
    pub fn get_bit(&self, index: usize) -> (r: Option<bool>)
        requires
            self.wf(),
        ensures
            r == (if index < self.bits().len() {
                Some(self.bits()[index as int])
            } else {
                Option::<bool>::None
            }),
    {
        if index > self.last_index {
            return None;
        }
        let disk_number = index % self.disk_count;
        let adjusted_index = index / self.disk_count;
        proof {
            if index < self.last_index {
                lemma_index_in_disk(index as int, self.last_index as int, self.disk_count as int);
            } else {
                lemma_cell_index(index as int, self.disk_count as int);
            }
        }
        self.disks[disk_number].get(adjusted_index)
    }

    /// Flips one already-written bit in place; used only by the
    /// correction path.
    pub fn flip_bit_at(&mut self, index: usize)
        requires
            old(self).wf(),
            index < old(self).bits().len(),
        ensures
            final(self).wf(),
            final(self).disk_count == old(self).disk_count,
            final(self).disk_capacity == old(self).disk_capacity,
            final(self).total_capacity == old(self).total_capacity,
            final(self).last_index == old(self).last_index,
            final(self).last_layer == old(self).last_layer,
            final(self).bits() == old(self).bits().update(
                index as int,
                !old(self).bits()[index as int],
            ),
    {
        let ghost dc = self.disk_count as int;
        let disk_number = index % self.disk_count;
        let adjusted_index = index / self.disk_count;
        proof {
            lemma_index_in_disk(index as int, self.last_index as int, dc);
        }
        self.disks[disk_number].flip_at(adjusted_index);
        proof {
            assert forall|j: int| 0 <= j < self.last_index implies self.bits()[j] == old(self).bits().update(index as int, !old(self).bits()[index as int])[j] by {
                lemma_index_in_disk(j, self.last_index as int, dc);
                lemma_cell_index(j, dc);
                lemma_cell_index(index as int, dc);
            }
            assert(self.bits() =~= old(self).bits().update(
                index as int,
                !old(self).bits()[index as int],
            ));
        }
    }

    /// The written bits of a half-open index range, in order.
    pub fn get_slice(&self, range: Range<usize>) -> (r: Result<Vec<bool>, String>)
        requires
            self.wf(),
        ensures
            (match r {
                Ok(v) => range.end <= self.bits().len() && v@ == (if range.start <= range.end {
                    self.bits().subrange(range.start as int, range.end as int)
                } else {
                    Seq::<bool>::empty()
                }),
                Err(e) => range.end > self.bits().len() && e@ == slice_range_message(),
            }),
    {
        if range.end > self.last_index {
            return Err("End index is larger than the biggest possible index.".to_string());
        }
        let mut result: Vec<bool> = Vec::new();
        let mut index = range.start;
        while index < range.end
            invariant
                self.wf(),
                range.end <= self.bits().len(),
                index >= range.start,
                index <= range.end || index == range.start,
                result@ == (if range.start <= range.end && index <= range.end {
                    self.bits().subrange(range.start as int, index as int)
                } else {
                    Seq::<bool>::empty()
                }),
            decreases range.end - index,
        {
            result.push(self.get_bit(index).unwrap());
            index += 1;
        }
        Ok(result)
    }

    /// Is layer `layer_index` fully written?
    pub fn is_layer_full(&self, layer_index: usize) -> (r: bool)
        requires
            self.wf(),
        ensures
            r == layer_full(self.bits().len() as int, self.disk_count as int, layer_index as int),
    {
        proof {
            lemma_layer_full_div(
                self.last_index as int,
                self.disk_count as int,
                layer_index as int,
            );
        }
        layer_index < self.last_index / self.disk_count
    }

    /// The data bits of a fully written layer, one per disk, in disk
    /// order; fails while the layer is still partial.
    pub fn get_data_layer(&self, layer_index: usize) -> (r: Result<Vec<bool>, String>)
        requires
            self.wf(),
        ensures
            (match r {
                Ok(v) => layer_full(
                    self.bits().len() as int,
                    self.disk_count as int,
                    layer_index as int,
                ) && v@ == layer_data(self.bits(), self.disk_count as int, layer_index as int),
                Err(e) => !layer_full(
                    self.bits().len() as int,
                    self.disk_count as int,
                    layer_index as int,
                ) && e@ == layer_not_full_message(),
            }),
    {
        if !self.is_layer_full(layer_index) {
            return Err("Layer is not full".to_string());
        }
        let ghost dc = self.disk_count as int;
        let ghost k = layer_index as int;
        let mut layer: Vec<bool> = Vec::new();
        let mut i: usize = 0;
        while i < self.disk_count
            invariant
                self.wf(),
                layer_full(self.bits().len() as int, self.disk_count as int, k),
                k == layer_index as int,
                dc == self.disk_count as int,
                i <= self.disk_count,
                layer@.len() == i,
                forall|d: int| 0 <= d < i ==> layer@[d] == self.bits()[k * dc + d],
            decreases self.disk_count - i,
        {
            proof {
                lemma_layer_cell(k, i as int, dc);
                assert(k * dc + i < self.last_index) by (nonlinear_arith)
                    requires
                        (k + 1) * dc <= self.last_index,
                        0 <= i < dc,
                        k >= 0,
                ;
                lemma_index_in_disk(k * dc + i, self.last_index as int, dc);
            }
            layer.push(self.disks[i].get(layer_index).unwrap());
            i += 1;
        }
        proof {
            assert(layer@ =~= layer_data(self.bits(), dc, k));
        }
        Ok(layer)
    }

    /// The layer a global index belongs to.
    pub fn get_layer_number(&self, index: usize) -> (r: usize)
        requires
            self.wf(),
        ensures
            r == index as int / self.disk_count as int,
    {
        index / self.disk_count
    }
}

impl Storage for DiskStorage {
    /// The structural invariant: counters consistent, every disk of the
    /// configured capacity, and each disk holding exactly its share of
    /// the written stripe.
    open spec fn wf(&self) -> bool {
        &&& self.disk_count >= 1
        &&& self.disks@.len() == self.disk_count
        &&& self.total_capacity == self.disk_count * self.disk_capacity
        &&& self.last_index <= self.total_capacity
        &&& self.last_layer == self.last_index as int / self.disk_count as int
        &&& forall|d: int|
            0 <= d < self.disk_count ==> (#[trigger] self.disks@[d]).capacity == self.disk_capacity
        &&& forall|d: int|
            0 <= d < self.disk_count ==> (#[trigger] self.disks@[d]).info@.len()
                == stripe_disk_len(self.last_index as int, self.disk_count as int, d)
    }

    /// The written bits, read back through the round-robin mapping.
    open spec fn bits(&self) -> Seq<bool> {
        Seq::new(
            self.last_index as nat,
            |i: int|
                self.disks@[i % self.disk_count as int].info@[i / self.disk_count as int],
        )
    }

    open spec fn disk_count_spec(&self) -> int {
        self.disk_count as int
    }

    open spec fn disk_capacity_spec(&self) -> int {
        self.disk_capacity as int
    }

    proof fn wf_properties(&self) {
    }

    fn disk_count(&self) -> (r: usize) {
        self.disk_count
    }

    fn disk_capacity(&self) -> (r: usize) {
        self.disk_capacity
    }

    fn write_sequence(&mut self, bits: &[bool]) -> (r: Result<(), String>) {
        self.write_sequence(bits)
    }

    fn get_bit(&self, index: usize) -> (r: Option<bool>) {
        self.get_bit(index)
    }

    fn get_slice(&self, range: Range<usize>) -> (r: Result<Vec<bool>, String>) {
        self.get_slice(range)
    }

    fn last_layer(&self) -> (r: usize) {
        self.last_layer
    }

    fn get_data_layer(&self, layer_index: usize) -> (r: Result<Vec<bool>, String>) {
        self.get_data_layer(layer_index)
    }

    fn get_layer_number(&self, index: usize) -> (r: usize) {
        self.get_layer_number(index)
    }

    fn get_disk(&self, index: usize) -> (r: &Disk) {
        proof {
            let dc = self.disk_count as int;
            let li = self.last_index as int;
            lemma_cell_index(li, dc);
            assert forall|j: int|
                0 <= j < stripe_disk_len(li, dc, index as int) implies self.disks@[
                index as int].info@[j] == self.bits()[j * dc + index] by {
                lemma_layer_cell(j, index as int, dc);
                if j < li / dc {
                    assert(j * dc + index < li) by (nonlinear_arith)
                        requires
                            0 <= index < dc,
                            j + 1 <= li / dc,
                            dc >= 1,
                            li == dc * (li / dc) + li % dc,
                            0 <= li % dc,
                    ;
                } else {
                    assert(j == li / dc && index < li % dc);
                    assert(j * dc + index < li) by (nonlinear_arith)
                        requires
                            j == li / dc,
                            index < li % dc,
                            li == dc * (li / dc) + li % dc,
                    ;
                }
                assert(j * dc + index >= 0) by (nonlinear_arith)
                    requires
                        j >= 0,
                        index >= 0,
                        dc >= 1,
                ;
            }
        }
        &self.disks[index]
    }

    fn flip_bit_at(&mut self, index: usize) {
        self.flip_bit_at(index)
    }
}

} // verus!
