//! The orchestrator: stripes writes through a `Storage`, persists one
//! Hamming check bit per parity disk for every completed layer, and
//! repairs at most one flipped bit per layer on every read.

use vstd::prelude::*;

verus! {

use core::ops::Range;
use crate::hamming;
use crate::hamming::{
    parity_position, lg, data_count, parity_count_upto, code_len, skeleton, encoded, syndrome,
    check_xor, spec_parity_bits_count, is_power_of_two,
};
use crate::raid::{
    Storage, get_power_of_two, layer_data, no_space_message, slice_range_message,
    corruption_message, lemma_cell_index, lemma_layer_cell, lemma_layer_full_div,
};
use crate::raid::disks::Disk;
use vstd::arithmetic::power2::pow2;

broadcast use vstd::string::to_string_from_display_ensures_for_str;

/// Does a read of `start..end` run the correction step over encoded layer
/// `k`, when `ll` layers are encoded on `dc` disks?
pub open spec fn touches(start: int, end: int, dc: int, ll: int, k: int) -> bool {
    start < end && start / dc <= k <= (end - 1) / dc && 0 <= k < ll
}

/// What one correction pass leaves of a layer's codeword: unchanged when
/// every check passes, otherwise the bit the syndrome names flipped back.
pub open spec fn layer_fixed(c0: Seq<bool>, c1: Seq<bool>) -> bool {
    if syndrome(c0) == 0 {
        c1 == c0
    } else {
        c1 == c0.update(syndrome(c0) as int - 1, !c0[syndrome(c0) as int - 1])
    }
}

/// The orchestrator over a backing array: data goes to the array, one
/// Hamming check bit per parity disk is kept for every completed layer,
/// and reads repair single-bit corruption in place before returning.
pub struct Raid<S: Storage> {
    /// The striped data array.
    pub storage: S,
    /// One disk per Hamming check bit: disk `j` holds the value of check
    /// `2^j` for every encoded layer, at offset equal to the layer number.
    pub parity_disks: Vec<Disk>,
    /// How many parity disks there are.
    pub parity_count: usize,
}

impl<S: Storage> Raid<S> {
    /// Number of data disks in the backing array.
    pub open spec fn dc(&self) -> int {
        self.storage.disk_count_spec()
    }

    /// Fixed capacity of each disk.
    pub open spec fn cap(&self) -> int {
        self.storage.disk_capacity_spec()
    }

    /// How many layers are fully written, hence encoded.
    pub open spec fn encoded_layers(&self) -> int {
        self.storage.bits().len() as int / self.dc()
    }

    /// Length of one interleaved codeword.
    pub open spec fn codeword_size(&self) -> int {
        self.dc() + self.parity_count
    }

    /// Well-formedness: the storage is sound, there is one parity disk
    /// per Hamming check bit of a `dc()`-bit payload, and every parity
    /// disk holds exactly one bit per encoded layer.
    pub open spec fn wf(&self) -> bool {
        &&& self.storage.wf()
        &&& 1 <= self.dc() <= usize::MAX / 8
        &&& self.parity_count == spec_parity_bits_count(self.dc() as nat)
        &&& self.parity_disks@.len() == self.parity_count
        &&& forall|j: int|
            0 <= j < self.parity_count ==> (#[trigger] self.parity_disks@[j]).capacity == self.cap()
        &&& forall|j: int|
            0 <= j < self.parity_count ==> (#[trigger] self.parity_disks@[j]).info@.len()
                == self.encoded_layers()
    }

    /// The interleaved codeword of layer `k`: 1-indexed position `p`
    /// holds parity disk `log2(p)`'s bit for the layer when `p` is a
    /// power of two, else the next data disk's bit.
    pub open spec fn layer_codeword(&self, k: int) -> Seq<bool> {
        Seq::new(
            self.codeword_size() as nat,
            |i: int|
                if parity_position(i + 1) {
                    self.parity_disks@[lg(i + 1) as int].info@[k]
                } else {
                    self.storage.bits()[k * self.dc() + data_count(i)]
                },
        )
    }

    /// Builds an orchestrator over a fresh backing array, with one empty
    /// parity disk per Hamming check bit.
    #[verifier::loop_isolation(false)]
    pub fn from_data(data: S) -> (r: Raid<S>)
        requires
            data.wf(),
            data.bits().len() == 0,
            data.disk_count_spec() <= usize::MAX / 8,
        ensures
            r.wf(),
            r.storage == data,
            r.dc() == data.disk_count_spec(),
            r.cap() == data.disk_capacity_spec(),
    {
        proof {
            data.wf_properties();
        }
        let parity_count = hamming::parity_bits_count(data.disk_count());
        let capacity = data.disk_capacity();
        let mut parity_vec: Vec<Disk> = Vec::new();
        let mut j: usize = 0;
        while j < parity_count
            invariant
                j <= parity_count,
                parity_vec@.len() == j,
                forall|t: int|
                    0 <= t < j ==> (#[trigger] parity_vec@[t]).capacity == capacity
                        && parity_vec@[t].info@.len() == 0,
            decreases parity_count - j,
        {
            parity_vec.push(Disk::new(capacity));
            j += 1;
        }
        proof {
            vstd::arithmetic::div_mod::lemma_basic_div(0, data.disk_count_spec());
        }
        Raid { storage: data, parity_disks: parity_vec, parity_count }
    }

    /// Computes the parity bits of one freshly completed layer's data and
    /// appends each to its parity disk, ordered by check-bit weight.
    #[verifier::loop_isolation(false)]
    fn encode_single_sequence(&mut self, bits: &Vec<bool>) -> (r: Result<(), String>)
        requires
            1 <= bits@.len() <= usize::MAX / 8,
            old(self).parity_count == spec_parity_bits_count(bits@.len()),
            old(self).parity_disks@.len() == old(self).parity_count,
            forall|j: int|
                0 <= j < old(self).parity_disks@.len() ==> (#[trigger] old(self).parity_disks@[j].info@).len()
                    < old(self).parity_disks@[j].capacity,
        ensures
            r == Ok::<(), String>(()),
            final(self).storage == old(self).storage,
            final(self).parity_count == old(self).parity_count,
            final(self).parity_disks@.len() == old(self).parity_disks@.len(),
            forall|j: int|
                0 <= j < final(self).parity_disks@.len() ==> (#[trigger] final(self).parity_disks@[j].info@)
                    == old(self).parity_disks@[j].info@.push(check_xor(skeleton(bits@), j as nat)),
            forall|j: int|
                0 <= j < final(self).parity_disks@.len() ==> (#[trigger] final(self).parity_disks@[j].capacity)
                    == old(self).parity_disks@[j].capacity,
    {
        let ghost pc = old(self).parity_count as int;
        let bits_extra = hamming::add_parity_bits(bits.as_slice());
        let parity_bits = hamming::calculate_parity_bits(bits_extra.as_slice());
        proof {
            hamming::lemma_code_len_parity(bits@.len());
        }
        let mut t: usize = 0;
        while t < parity_bits.len()
            invariant
                parity_bits@.len() == pc,
                t <= pc,
                self.parity_count == old(self).parity_count,
                pc == old(self).parity_count as int,
                self.storage == old(self).storage,
                self.parity_disks@.len() == pc,
                forall|x: int|
                    0 <= x < pc ==> (#[trigger] parity_bits@[x]).0 + 1 == pow2(x as nat)
                        && parity_bits@[x].1 == check_xor(skeleton(bits@), x as nat)
                        && parity_bits@[x].0 < code_len(bits@.len()),
                forall|j: int|
                    0 <= j < t ==> (#[trigger] self.parity_disks@[j]).info@ == old(self).parity_disks@[j].info@.push(check_xor(skeleton(bits@), j as nat))
                        && self.parity_disks@[j].capacity == old(self).parity_disks@[j].capacity,
                forall|j: int|
                    t <= j < pc ==> (#[trigger] self.parity_disks@[j]) == old(self).parity_disks@[j],
            decreases pc - t,
        {
            proof {
                hamming::lemma_code_len(bits@.len());
                hamming::lemma_lg_pow2(t as nat);
            }
            let entry = parity_bits[t];
            let disk_index = get_power_of_two(entry.0 + 1);
            self.parity_disks[disk_index].write_bit(entry.1)?;
            t += 1;
        }
        Ok(())
    }

    /// Writes bits through the storage, propagating its capacity error
    /// unchanged; for every layer this write completes, computes that
    /// layer's parity bits and persists them to the parity disks. The
    /// parity disks share the data disks' capacity and hold one bit per
    /// layer, so persisting parity never fails and no layer is ever left
    /// partially encoded.
    #[verifier::loop_isolation(false)]
    pub fn write_sequence(&mut self, bits: &[bool]) -> (r: Result<(), String>)
        requires
            old(self).wf(),
        ensures
            final(self).wf(),
            final(self).dc() == old(self).dc(),
            final(self).cap() == old(self).cap(),
            final(self).parity_count == old(self).parity_count,
            (match r {
                Ok(()) => {
                    &&& old(self).storage.bits().len() + bits@.len() < old(self).dc() * old(self).cap()
                    &&& final(self).storage.bits() == old(self).storage.bits() + bits@
                    &&& forall|k: int|
                        0 <= k < old(self).encoded_layers() ==> final(self).layer_codeword(k)
                            == old(self).layer_codeword(k)
                    &&& forall|k: int|
                        old(self).encoded_layers() <= k < final(self).encoded_layers() ==> final(self).layer_codeword(k) == encoded(
                            layer_data(final(self).storage.bits(), final(self).dc(), k),
                        )
                }
                Err(e) => {
                    &&& *final(self) == *old(self)
                    &&& old(self).storage.bits().len() + bits@.len() >= old(self).dc() * old(self).cap()
                    &&& e@ == no_space_message()
                }
            }),
    {
        let ghost prior = *self;
        let before_layer = self.storage.last_layer();
        let result = self.storage.write_sequence(bits);
        match result {
            Err(error) => Err(error),
            Ok(()) => {
                let after_layer = self.storage.last_layer();
                let ghost mid = *self;
                proof {
                    let dc = self.dc();
                    let old_len = prior.storage.bits().len() as int;
                    vstd::arithmetic::div_mod::lemma_div_is_ordered(
                        old_len,
                        self.storage.bits().len() as int,
                        dc,
                    );
                    vstd::arithmetic::div_mod::lemma_multiply_divide_lt(
                        self.storage.bits().len() as int,
                        dc,
                        self.cap(),
                    );
                    hamming::lemma_code_len_parity(dc as nat);
                    assert forall|k: int| 0 <= k < before_layer implies self.layer_codeword(k)
                        == prior.layer_codeword(k) by {
                        lemma_layer_full_div(old_len, dc, k);
                        assert forall|i: int| 0 <= i < self.codeword_size() implies self
                            .layer_codeword(k)[i] == prior.layer_codeword(k)[i] by {
                            hamming::lemma_codeword_position(dc as nat, i);
                            if !parity_position(i + 1) {
                                assert((k + 1) * dc <= old_len);
                                assert(0 <= k * dc + data_count(i) < (k + 1) * dc)
                                    by (nonlinear_arith)
                                    requires
                                        0 <= data_count(i) < dc,
                                        k >= 0,
                                        dc >= 1,
                                ;
                            }
                        }
                        assert(self.layer_codeword(k) =~= prior.layer_codeword(k));
                    }
                }
                let mut layer = before_layer;
                while layer < after_layer
                    invariant
                        prior.wf(),
                        self.storage.wf(),
                        self.storage == mid.storage,
                        self.parity_count == prior.parity_count,
                        self.dc() == prior.dc(),
                        self.cap() == prior.cap(),
                        1 <= self.dc() <= usize::MAX / 8,
                        self.parity_count == spec_parity_bits_count(self.dc() as nat),
                        self.parity_disks@.len() == self.parity_count,
                        before_layer == prior.encoded_layers(),
                        after_layer == self.encoded_layers(),
                        before_layer <= layer <= after_layer,
                        self.storage.bits() == prior.storage.bits() + bits@,
                        self.storage.bits().len() < self.dc() * self.cap(),
                        forall|j: int|
                            0 <= j < self.parity_count ==> (#[trigger] self.parity_disks@[j]).capacity
                                == self.cap(),
                        forall|j: int|
                            0 <= j < self.parity_count ==> (#[trigger] self.parity_disks@[j]).info@.len()
                                == layer,
                        forall|k: int|
                            0 <= k < before_layer ==> self.layer_codeword(k)
                                == prior.layer_codeword(k),
                        forall|k: int|
                            before_layer <= k < layer ==> self.layer_codeword(k) == encoded(
                                layer_data(self.storage.bits(), self.dc(), k),
                            ),
                    decreases after_layer - layer,
                {
                    let ghost dc = self.dc();
                    let ghost pc = self.parity_count as int;
                    let ghost n = self.storage.bits().len() as int;
                    proof {
                        lemma_layer_full_div(n, dc, layer as int);
                        vstd::arithmetic::div_mod::lemma_multiply_divide_lt(n, dc, self.cap());
                        hamming::lemma_code_len_parity(dc as nat);
                    }
                    let layer_bits = self.storage.get_data_layer(layer).unwrap();
                    let ghost pre = *self;
                    self.encode_single_sequence(&layer_bits)?;
                    proof {
                        let csize = self.codeword_size();
                        assert forall|k: int| 0 <= k < layer implies self.layer_codeword(k)
                            == pre.layer_codeword(k) by {
                            assert forall|i: int| 0 <= i < csize implies self.layer_codeword(k)[i]
                                == pre.layer_codeword(k)[i] by {
                                hamming::lemma_codeword_position(dc as nat, i);
                            }
                            assert(self.layer_codeword(k) =~= pre.layer_codeword(k));
                        }
                        let p = layer_data(self.storage.bits(), dc, layer as int);
                        assert(self.layer_codeword(layer as int) == encoded(p)) by {
                            assert forall|i: int| 0 <= i < csize implies self.layer_codeword(
                                layer as int,
                            )[i] == encoded(p)[i] by {
                                hamming::lemma_codeword_position(dc as nat, i);
                                if !parity_position(i + 1) {
                                    assert(data_count(i) < dc);
                                    lemma_cell_index(n, dc);
                                    assert((layer + 1) * dc <= n) by (nonlinear_arith)
                                        requires
                                            layer + 1 <= n / dc,
                                            dc >= 1,
                                            n == dc * (n / dc) + n % dc,
                                            n % dc >= 0,
                                    ;
                                    assert(layer * dc + data_count(i) < (layer + 1) * dc)
                                        by (nonlinear_arith)
                                        requires
                                            0 <= data_count(i) < dc,
                                    ;
                                    assert(layer * dc + data_count(i) >= 0) by (nonlinear_arith)
                                        requires
                                            dc >= 1,
                                            0 <= layer,
                                            0 <= data_count(i),
                                    ;
                                }
                            }
                            assert(self.layer_codeword(layer as int) =~= encoded(p));
                        }
                        lemma_cell_index(n, dc);
                        assert forall|k: int|
                            before_layer <= k < layer + 1 implies self.layer_codeword(k) == encoded(
                            layer_data(self.storage.bits(), self.dc(), k),
                        ) by {
                            if k < layer {
                                assert(self.layer_codeword(k) == pre.layer_codeword(k));
                                assert(pre.layer_codeword(k) == encoded(
                                    layer_data(pre.storage.bits(), pre.dc(), k),
                                ));
                                assert(pre.storage == self.storage);
                            }
                        }
                    }
                    layer += 1;
                }
                Ok(())
            }
        }
    }

    /// Rebuilds the interleaved codeword of an encoded layer from the
    /// data and parity disks, walking 1-indexed Hamming positions in
    /// order.
    #[verifier::loop_isolation(false)]
    pub fn construct_hamming_code(&self, layer: usize) -> (code: Vec<bool>)
        requires
            self.wf(),
            layer < self.encoded_layers(),
        ensures
            code@ == self.layer_codeword(layer as int),
    {
        let ghost dc = self.dc();
        let ghost pc = self.parity_count as int;
        proof {
            hamming::lemma_code_len_parity(dc as nat);
            hamming::lemma_parity_bits_count_le(dc as nat);
        }
        let disk_count = self.storage.disk_count();
        let mut code: Vec<bool> = Vec::new();
        let mut data_index: usize = 0;
        let mut parity_index: usize = 0;
        while data_index + parity_index != self.parity_count + disk_count
            invariant
                self.wf(),
                layer < self.encoded_layers(),
                dc == self.dc(),
                pc == self.parity_count as int,
                pc <= dc + 2,
                dc + pc == code_len(dc as nat),
                disk_count == dc,
                data_index + parity_index <= dc + pc,
                data_index == data_count((data_index + parity_index) as int),
                parity_index == parity_count_upto((data_index + parity_index) as int),
                code@.len() == data_index + parity_index,
                forall|i: int|
                    0 <= i < code@.len() ==> code@[i] == self.layer_codeword(layer as int)[i],
            decreases dc + pc - data_index - parity_index,
        {
            let ghost total = (data_index + parity_index) as int;
            proof {
                hamming::lemma_codeword_position(dc as nat, total);
            }
            if is_power_of_two(data_index + parity_index + 1) {
                proof {
                    hamming::lemma_parity_count_at(total + 1);
                }
                code.push(self.parity_disks[parity_index].get(layer).unwrap());
                parity_index += 1;
            } else {
                proof {
                    vstd::arithmetic::div_mod::lemma_mod_bound(
                        self.storage.bits().len() as int,
                        dc,
                    );
                }
                code.push(self.storage.get_disk(data_index).get(layer).unwrap());
                data_index += 1;
            }
        }
        proof {
            assert(code@ =~= self.layer_codeword(layer as int));
        }
        code
    }

    /// The correction step for one encoded layer: reconstructs the
    /// codeword and, if the syndrome names a bit, flips that bit back in
    /// place — on the data disk it maps to, or on its parity disk. The
    /// flip target is computed from the layer's own base index
    /// (`layer * disk_count`), never from a caller's read range, so
    /// correction works the same whatever slice prompted it. A syndrome
    /// naming a position outside the codeword means the stripe holds
    /// more errors than the code can correct; that is reported, and
    /// nothing is touched.
    fn try_fix_error(&mut self, layer: usize) -> (r: Result<(), String>)
        requires
            old(self).wf(),
            layer < old(self).encoded_layers(),
        ensures
            final(self).wf(),
            final(self).dc() == old(self).dc(),
            final(self).cap() == old(self).cap(),
            final(self).parity_count == old(self).parity_count,
            final(self).storage.bits().len() == old(self).storage.bits().len(),
            final(self).encoded_layers() == old(self).encoded_layers(),
            forall|k: int|
                0 <= k < old(self).encoded_layers() && k != layer ==> final(self).layer_codeword(k)
                    == old(self).layer_codeword(k),
            forall|i: int|
                0 <= i < old(self).storage.bits().len() && i / old(self).dc() != layer ==> final(self).storage.bits()[i] == old(self).storage.bits()[i],
            (match r {
                Ok(()) => layer_fixed(
                    old(self).layer_codeword(layer as int),
                    final(self).layer_codeword(layer as int),
                ) && syndrome(final(self).layer_codeword(layer as int)) == 0 && syndrome(
                    old(self).layer_codeword(layer as int),
                ) <= old(self).codeword_size(),
                Err(e) => *final(self) == *old(self) && syndrome(
                    old(self).layer_codeword(layer as int),
                ) > old(self).codeword_size() && e@ == corruption_message(),
            }),
    {
        let ghost dc = self.dc();
        let ghost pc = self.parity_count as int;
        let ghost c0 = self.layer_codeword(layer as int);
        proof {
            hamming::lemma_code_len_parity(dc as nat);
            hamming::lemma_parity_bits_count_le(dc as nat);
        }
        let code = self.construct_hamming_code(layer);
        let error_sum = hamming::syndrome_value(code.as_slice());
        if error_sum == 0 {
            return Ok(());
        }
        if error_sum > code.len() {
            return Err("Uncorrectable corruption".to_string());
        }
        let spot = error_sum - 1;
        let ghost c1 = c0.update(spot as int, !c0[spot as int]);
        if is_power_of_two(spot + 1) {
            let parity_number = get_power_of_two(spot + 1);
            proof {
                hamming::lemma_codeword_position(dc as nat, spot as int);
                hamming::lemma_parity_position_as_pow2(spot as int + 1);
            }
            self.parity_disks[parity_number].flip_at(layer);
            proof {
                assert forall|k: int|
                    0 <= k < self.encoded_layers() && k != layer implies self.layer_codeword(k)
                    == old(self).layer_codeword(k) by {
                    assert forall|i: int| 0 <= i < self.codeword_size() implies self.layer_codeword(
                        k,
                    )[i] == old(self).layer_codeword(k)[i] by {
                        hamming::lemma_codeword_position(dc as nat, i);
                    }
                    assert(self.layer_codeword(k) =~= old(self).layer_codeword(k));
                }
                assert forall|i: int| 0 <= i < self.codeword_size() implies self.layer_codeword(
                    layer as int,
                )[i] == c1[i] by {
                    hamming::lemma_codeword_position(dc as nat, i);
                    if parity_position(i + 1) && i != spot {
                        hamming::lemma_parity_position_as_pow2(i + 1);
                    }
                }
                assert(self.layer_codeword(layer as int) =~= c1);
            }
        } else {
            let cell = hamming::count_data_positions(spot);
            let ghost n = self.storage.bits().len() as int;
            proof {
                self.storage.wf_properties();
                hamming::lemma_codeword_position(dc as nat, spot as int);
                lemma_layer_full_div(n, dc, layer as int);
                assert(0 <= layer * dc + cell < n && (layer * dc + cell) < (layer + 1) * dc)
                    by (nonlinear_arith)
                    requires
                        0 <= cell < dc,
                        0 <= layer,
                        dc >= 1,
                        (layer + 1) * dc <= n,
                ;
                lemma_layer_cell(layer as int, cell as int, dc);
            }
            let storage_disk_count = self.storage.disk_count();
            self.storage.flip_bit_at(layer * storage_disk_count + cell);
            proof {
                let target = layer * dc + cell;
                assert forall|k: int|
                    0 <= k < self.encoded_layers() && k != layer implies self.layer_codeword(k)
                    == old(self).layer_codeword(k) by {
                    assert forall|i: int| 0 <= i < self.codeword_size() implies self.layer_codeword(
                        k,
                    )[i] == old(self).layer_codeword(k)[i] by {
                        hamming::lemma_codeword_position(dc as nat, i);
                        if !parity_position(i + 1) {
                            lemma_layer_cell(k, data_count(i) as int, dc);
                            lemma_layer_full_div(n, dc, k);
                            assert(0 <= k * dc + data_count(i) < n) by (nonlinear_arith)
                                requires
                                    0 <= data_count(i) < dc,
                                    0 <= k,
                                    dc >= 1,
                                    (k + 1) * dc <= n,
                            ;
                        }
                    }
                    assert(self.layer_codeword(k) =~= old(self).layer_codeword(k));
                }
                assert forall|i: int| 0 <= i < self.codeword_size() implies self.layer_codeword(
                    layer as int,
                )[i] == c1[i] by {
                    hamming::lemma_codeword_position(dc as nat, i);
                    if !parity_position(i + 1) {
                        if i != spot {
                            if i < spot {
                                hamming::lemma_data_cell_injective(i, spot as int);
                            } else {
                                hamming::lemma_data_cell_injective(spot as int, i);
                            }
                        }
                        assert(0 <= layer * dc + data_count(i) < n) by (nonlinear_arith)
                            requires
                                0 <= data_count(i) < dc,
                                0 <= layer,
                                dc >= 1,
                                (layer + 1) * dc <= n,
                        ;
                    }
                }
                assert(self.layer_codeword(layer as int) =~= c1);
                assert forall|i: int| 0 <= i < n && i / dc != layer implies self.storage.bits()[i]
                    == old(self).storage.bits()[i] by {
                    if i == target {
                        lemma_layer_cell(layer as int, cell as int, dc);
                    }
                }
            }
        }
        let code2 = self.construct_hamming_code(layer);
        let check_sum = hamming::syndrome_value(code2.as_slice());
        proof {
            hamming::lemma_flip_clean(c0);
        }
        if check_sum != 0 {
            return Err("Uncorrectable corruption".to_string());
        }
        Ok(())
    }

    /// Reads a half-open range of written bits. Every encoded layer the
    /// range spans is run through the correction step first, so a read
    /// anywhere in a layer repairs that layer — even when the repaired
    /// bit lies outside the range itself. A still-partial final layer is
    /// returned as written, unprotected.
    #[verifier::loop_isolation(false)]
    pub fn get_slice(&mut self, range: Range<usize>) -> (r: Result<Vec<bool>, String>)
        requires
            old(self).wf(),
        ensures
            final(self).wf(),
            final(self).dc() == old(self).dc(),
            final(self).cap() == old(self).cap(),
            final(self).parity_count == old(self).parity_count,
            final(self).storage.bits().len() == old(self).storage.bits().len(),
            forall|k: int|
                #![trigger touches(range.start as int, range.end as int, old(self).dc(), old(self).encoded_layers(), k)]
                0 <= k < old(self).encoded_layers() && !touches(
                    range.start as int,
                    range.end as int,
                    old(self).dc(),
                    old(self).encoded_layers(),
                    k,
                ) ==> final(self).layer_codeword(k) == old(self).layer_codeword(k),
            forall|i: int|
                0 <= i < old(self).storage.bits().len() && !touches(
                    range.start as int,
                    range.end as int,
                    old(self).dc(),
                    old(self).encoded_layers(),
                    #[trigger] (i / old(self).dc()),
                ) ==> final(self).storage.bits()[i] == old(self).storage.bits()[i],
            (match r {
                Ok(v) => {
                    &&& range.end <= old(self).storage.bits().len()
                    &&& forall|k: int|
                        #![trigger touches(range.start as int, range.end as int, old(self).dc(), old(self).encoded_layers(), k)]
                        touches(
                            range.start as int,
                            range.end as int,
                            old(self).dc(),
                            old(self).encoded_layers(),
                            k,
                        ) ==> syndrome(old(self).layer_codeword(k)) <= old(self).codeword_size()
                            && layer_fixed(
                            old(self).layer_codeword(k),
                            final(self).layer_codeword(k),
                        ) && syndrome(final(self).layer_codeword(k)) == 0
                    &&& v@ == (if range.start <= range.end {
                        final(self).storage.bits().subrange(range.start as int, range.end as int)
                    } else {
                        Seq::<bool>::empty()
                    })
                }
                Err(e) => {
                    ||| {
                        &&& e@ == slice_range_message()
                        &&& range.end > old(self).storage.bits().len()
                        &&& forall|k: int|
                            #![trigger touches(range.start as int, range.end as int, old(self).dc(), old(self).encoded_layers(), k)]
                            touches(
                                range.start as int,
                                range.end as int,
                                old(self).dc(),
                                old(self).encoded_layers(),
                                k,
                            ) ==> syndrome(old(self).layer_codeword(k)) <= old(self).codeword_size() && layer_fixed(
                                old(self).layer_codeword(k),
                                final(self).layer_codeword(k),
                            ) && syndrome(final(self).layer_codeword(k)) == 0
                    }
                    ||| {
                        &&& e@ == corruption_message()
                        &&& exists|kb: int|
                            #![trigger touches(range.start as int, range.end as int, old(self).dc(), old(self).encoded_layers(), kb)]
                            touches(
                                range.start as int,
                                range.end as int,
                                old(self).dc(),
                                old(self).encoded_layers(),
                                kb,
                            ) && syndrome(old(self).layer_codeword(kb)) > old(self).codeword_size()
                                && (forall|k: int|
                                #![trigger touches(range.start as int, range.end as int, old(self).dc(), old(self).encoded_layers(), k)]
                                touches(
                                    range.start as int,
                                    range.end as int,
                                    old(self).dc(),
                                    old(self).encoded_layers(),
                                    k,
                                ) && k < kb ==> syndrome(old(self).layer_codeword(k)) <= old(self).codeword_size() && layer_fixed(
                                    old(self).layer_codeword(k),
                                    final(self).layer_codeword(k),
                                ) && syndrome(final(self).layer_codeword(k)) == 0) && (forall|
                                k: int,
                            |
                                #![trigger touches(range.start as int, range.end as int, old(self).dc(), old(self).encoded_layers(), k)]
                                touches(
                                    range.start as int,
                                    range.end as int,
                                    old(self).dc(),
                                    old(self).encoded_layers(),
                                    k,
                                ) && k >= kb ==> final(self).layer_codeword(k) == old(self).layer_codeword(k))
                    }
                }
            }),
    {
        let ghost start = range.start as int;
        let ghost end = range.end as int;
        let ghost dc = self.dc();
        let ghost ll = self.encoded_layers();
        let ghost prior = *self;
        if range.start < range.end {
            let starting_layer = self.storage.get_layer_number(range.start);
            let ending_layer = self.storage.get_layer_number(range.end - 1);
            let last_layer = self.storage.last_layer();
            let mut layer = starting_layer;
            while layer <= ending_layer && layer < last_layer
                invariant
                    self.wf(),
                    prior.wf(),
                    range.start < range.end,
                    dc == self.dc() && dc == prior.dc(),
                    self.cap() == prior.cap(),
                    self.parity_count == prior.parity_count,
                    self.storage.bits().len() == prior.storage.bits().len(),
                    start == range.start as int,
                    end == range.end as int,
                    ll == prior.encoded_layers(),
                    self.encoded_layers() == ll,
                    starting_layer == start / dc,
                    ending_layer == (end - 1) / dc,
                    last_layer == ll,
                    starting_layer <= layer,
                    forall|k: int|
                        #![trigger touches(start, end, dc, ll, k)]
                        touches(start, end, dc, ll, k) && k < layer ==> syndrome(
                            prior.layer_codeword(k),
                        ) <= prior.codeword_size() && layer_fixed(
                            prior.layer_codeword(k),
                            self.layer_codeword(k),
                        ) && syndrome(self.layer_codeword(k)) == 0,
                    forall|k: int|
                        #![trigger touches(start, end, dc, ll, k)]
                        0 <= k < ll && !(touches(start, end, dc, ll, k) && k < layer)
                            ==> self.layer_codeword(k) == prior.layer_codeword(k),
                    forall|i: int|
                        0 <= i < prior.storage.bits().len() && !(touches(
                            start,
                            end,
                            dc,
                            ll,
                            #[trigger] (i / dc),
                        ) && i / dc < layer) ==> self.storage.bits()[i]
                            == prior.storage.bits()[i],
                decreases ending_layer + 1 - layer,
            {
                let ghost entry_state = *self;
                match self.try_fix_error(layer) {
                    Ok(()) => {
                        proof {
                            assert forall|k: int|
                                0 <= k < ll && !(touches(start, end, dc, ll, k) && k < layer + 1)
                                 implies self.layer_codeword(k) == prior.layer_codeword(k) by {
                                assert(touches(start, end, dc, ll, layer as int));
                                assert(k != layer as int);
                                assert(self.layer_codeword(k) == entry_state.layer_codeword(k));
                                assert(entry_state.layer_codeword(k) == prior.layer_codeword(k));
                            }
                        }
                    },
                    Err(error) => {
                        proof {
                            assert(touches(start, end, dc, ll, layer as int));
                            assert(syndrome(prior.layer_codeword(layer as int))
                                > prior.codeword_size());
                        }
                        return Err(error);
                    },
                }
                layer += 1;
            }
        }
        self.storage.get_slice(range)
    }

    /// Reads one bit, running the correction step over its layer first;
    /// errors propagate unchanged from the slice read.
    pub fn get_bit(&mut self, index: usize) -> (r: Result<bool, String>)
        requires
            old(self).wf(),
            index < usize::MAX,
        ensures
            final(self).wf(),
            final(self).dc() == old(self).dc(),
            final(self).cap() == old(self).cap(),
            final(self).parity_count == old(self).parity_count,
            final(self).storage.bits().len() == old(self).storage.bits().len(),
            (match r {
                Ok(b) => index < old(self).storage.bits().len() && b == final(self).storage.bits()[index as int],
                Err(e) => {
                    ||| (e@ == slice_range_message() && index >= old(self).storage.bits().len())
                    ||| (e@ == corruption_message() && index < old(self).storage.bits().len()
                        && index as int / old(self).dc() < old(self).encoded_layers() && syndrome(
                        old(self).layer_codeword(index as int / old(self).dc()),
                    ) > old(self).codeword_size())
                }
            }),
    {
        let ghost dc = self.dc();
        let ghost ll = self.encoded_layers();
        match self.get_slice(index..index + 1) {
            Ok(element) => {
                proof {
                    assert(element@.len() == 1);
                }
                Ok(element[0])
            },
            Err(error) => {
                proof {
                    if old(self).storage.bits().len() <= index as int {
                        vstd::arithmetic::div_mod::lemma_div_is_ordered(
                            old(self).storage.bits().len() as int,
                            index as int,
                            dc,
                        );
                    }
                }
                Err(error)
            },
        }
    }
}

/// One correction pass undoes a single flipped bit: a codeword that was
/// a clean encoding of `p` until one bit was flipped is, once fixed,
/// exactly that clean encoding again.
pub proof fn lemma_fix_restores_codeword(p: Seq<bool>, i: int, c1: Seq<bool>)
    requires
        0 <= i < encoded(p).len(),
        layer_fixed(encoded(p).update(i, !encoded(p)[i]), c1),
    ensures
        c1 == encoded(p),
{
    let e = encoded(p);
    let c0 = e.update(i, !e[i]);
    assert forall|k: nat| vstd::arithmetic::power2::pow2(k) <= e.len() implies !check_xor(
        e,
        k,
    ) by {
        hamming::lemma_encoded_checks(p, k);
    }
    hamming::lemma_syndrome_of_flip(e, i);
    assert(c0.update(i, !c0[i]) =~= e);
}

} // verus!
