use raid_2::hamming::{decode, encode, parity_bits_count};
use raid_2::raid::disks::{Disk, DiskStorage};
use raid_2::raid::raid::Raid;

#[test]
fn round_trip_various_lengths_test() {
    let payloads: Vec<Vec<bool>> = vec![
        vec![],
        vec![true],
        vec![false, true],
        vec![true, true, false, true],
        vec![false, true, true, false, true, false, false, true, true, false, true],
    ];
    for p in payloads {
        let encoded = encode(&p);
        assert_eq!(decode(&encoded), (p, None));
    }
}

#[test]
fn single_error_correction_every_position_test() {
    let p = vec![true, false, true, true, false, false, true, false];
    let encoded = encode(&p);
    for i in 0..encoded.len() {
        let mut corrupted = encoded.clone();
        corrupted[i] = !corrupted[i];
        assert_eq!(decode(&corrupted), (p.clone(), Some(i)));
    }
}

#[test]
fn parity_bits_count_values_test() {
    assert_eq!(parity_bits_count(0), 0);
    assert_eq!(parity_bits_count(1), 2);
    assert_eq!(parity_bits_count(2), 3);
    assert_eq!(parity_bits_count(4), 3);
    assert_eq!(parity_bits_count(11), 4);
    assert_eq!(parity_bits_count(26), 5);
}

#[test]
fn parity_bits_count_bound_and_monotonic_test() {
    let mut previous = parity_bits_count(0);
    for n in 0..200usize {
        let r = parity_bits_count(n);
        assert!(1usize << r >= n + r + 1);
        assert!(r >= previous);
        previous = r;
    }
}

#[test]
fn striping_locates_every_bit_test() {
    let written = [true, false, true, true, false, false, true, false, true, true];
    let mut disks = DiskStorage::new(3, 8);
    disks.write_sequence(&written[..4]).unwrap();
    disks.write_sequence(&written[4..]).unwrap();
    for (i, &bit) in written.iter().enumerate() {
        assert_eq!(disks.get_bit(i).unwrap(), bit);
        assert_eq!(disks.disks[i % 3].get(i / 3).unwrap(), bit);
    }
    assert_eq!(disks.get_bit(written.len()), None);
}

#[test]
fn layer_fullness_boundary_test() {
    let mut disks = DiskStorage::new(4, 16);
    disks.write_sequence(&[true, false, true]).unwrap();
    assert_eq!(disks.get_data_layer(0), Err("Layer is not full".to_string()));
    disks.write_sequence(&[false]).unwrap();
    assert_eq!(disks.get_data_layer(0).unwrap(), [true, false, true, false]);
    assert_eq!(disks.get_data_layer(1), Err("Layer is not full".to_string()));
}

#[test]
fn capacity_boundary_test() {
    // The array always reserves its final slot: a write that fills it
    // exactly is refused, one bit less goes through.
    let mut full = DiskStorage::new(4, 16);
    assert_eq!(full.write_sequence(&vec![true; 64]), Err("Not enough space".to_string()));
    assert_eq!(full.last_index, 0);

    let mut almost = DiskStorage::new(4, 16);
    almost.write_sequence(&vec![true; 63]).unwrap();
    assert_eq!(almost.last_index, 63);

    let raid_disks = DiskStorage::new(4, 16);
    let mut raid = Raid::from_data(raid_disks);
    assert_eq!(raid.write_sequence(&vec![false; 64]), Err("Not enough space".to_string()));
}

#[test]
fn disk_capacity_exceeded_test() {
    let mut disk = Disk::new(2);
    disk.write_bit(true).unwrap();
    disk.write_bit(false).unwrap();
    assert_eq!(disk.write_bit(true), Err("Disk size limit reached.".to_string()));
    assert_eq!(disk.get(2), None);
}

#[test]
fn slice_out_of_range_test() {
    let disks = DiskStorage::new(4, 16);
    let mut raid = Raid::from_data(disks);
    raid.write_sequence(&[true, false, true, false]).unwrap();
    let message = "End index is larger than the biggest possible index.".to_string();
    assert_eq!(raid.get_slice(0..5), Err(message.clone()));
    assert_eq!(raid.storage.get_slice(2..100), Err(message.clone()));
    assert_eq!(raid.get_bit(4), Err(message));
}

#[test]
fn scenario_striped_write_parity_test() {
    let disks = DiskStorage::new(4, 16);
    let mut raid = Raid::from_data(disks);
    raid.write_sequence(&[false, true, false, true, false, true, true, false, true]).unwrap();

    assert_eq!(raid.storage.get_data_layer(0).unwrap(), [false, true, false, true]);
    assert_eq!(raid.storage.get_data_layer(1).unwrap(), [false, true, true, false]);
    assert_eq!(raid.parity_disks[0].get(0).unwrap(), false);
    assert_eq!(raid.parity_disks[1].get(0).unwrap(), true);
    assert_eq!(raid.parity_disks[2].get(0).unwrap(), false);
}

#[test]
fn scenario_correction_restores_flipped_cell_test() {
    let disks = DiskStorage::new(4, 16);
    let mut raid = Raid::from_data(disks);
    raid.write_sequence(&[false, false, true, true]).unwrap();
    raid.write_sequence(&[true, true, true, true]).unwrap();

    // Flip one bit in a data disk at layer 0: global index 1 lives on
    // disk 1 at offset 0.
    raid.storage.flip_bit_at(1);
    assert_eq!(raid.storage.disks[1].get(0).unwrap(), true);

    let slice = raid.get_slice(1..6).unwrap();
    assert_eq!(slice, &[false, true, true, true, true]);
    assert_eq!(raid.storage.disks[1].get(0).unwrap(), false);
}

#[test]
fn correction_restores_parity_disk_test() {
    let disks = DiskStorage::new(4, 16);
    let mut raid = Raid::from_data(disks);
    raid.write_sequence(&[false, true, false, true, false, true, true, false]).unwrap();

    let clean = raid.parity_disks[1].get(0).unwrap();
    raid.parity_disks[1].flip_at(0);
    assert_eq!(raid.parity_disks[1].get(0).unwrap(), !clean);

    let slice = raid.get_slice(0..8).unwrap();
    assert_eq!(slice, &[false, true, false, true, false, true, true, false]);
    assert_eq!(raid.parity_disks[1].get(0).unwrap(), clean);
}

#[test]
fn uncorrectable_corruption_test() {
    // Five data disks give a 9-bit codeword with checks at positions
    // 1, 2, 4 and 8; corrupting the parity bits at positions 2 and 8
    // yields syndrome 10, outside the codeword.
    let disks = DiskStorage::new(5, 8);
    let mut raid = Raid::from_data(disks);
    raid.write_sequence(&[true, false, true, true, false]).unwrap();

    raid.parity_disks[1].flip_at(0);
    raid.parity_disks[3].flip_at(0);
    assert_eq!(raid.get_slice(0..5), Err("Uncorrectable corruption".to_string()));
}

#[test]
fn partial_layer_reads_back_unprotected_test() {
    let disks = DiskStorage::new(4, 16);
    let mut raid = Raid::from_data(disks);
    raid.write_sequence(&[true, false, true, false, true, true]).unwrap();
    assert_eq!(raid.get_slice(0..6).unwrap(), &[true, false, true, false, true, true]);
    assert_eq!(raid.get_bit(5).unwrap(), true);
}
