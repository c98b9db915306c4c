use raid_2::raid::disks::DiskStorage;
use raid_2::raid::raid::Raid;

#[test]
fn raid_raid_write_test() {
    let disks = DiskStorage::new(4, 16);
    let mut raid = Raid::from_data(disks);
    raid.write_sequence(&[false, true, false, true, false, true, true, false, true]).unwrap();

    assert_eq!(raid.parity_disks[0].get(0).unwrap(), false);
    assert_eq!(raid.parity_disks[1].get(0).unwrap(), true);
    assert_eq!(raid.parity_disks[2].get(0).unwrap(), false);

    assert_eq!(raid.storage.get_data_layer(0).unwrap(), [false, true, false, true]);
    assert_eq!(raid.storage.get_data_layer(1).unwrap(), [false, true, true, false]);

    assert_eq!(raid.parity_disks[0].get(1).unwrap(), true);
    assert_eq!(raid.parity_disks[1].get(1).unwrap(), true);
    assert_eq!(raid.parity_disks[2].get(1).unwrap(), false);

    assert_eq!(raid.parity_disks[0].get(2), None);
    assert_eq!(raid.parity_disks[1].get(2), None);
    assert_eq!(raid.parity_disks[2].get(2), None);
}

#[test]
fn disks_raid_write_test() {
    let disks = DiskStorage::new(4, 16);
    let mut raid = Raid::from_data(disks);
    raid.write_sequence(
        vec![false, true, false, true, false, true, true, false, true].as_slice(),
    )
    .unwrap();

    assert_eq!(raid.parity_disks[0].get(0).unwrap(), false);
    assert_eq!(raid.parity_disks[1].get(0).unwrap(), true);
    assert_eq!(raid.parity_disks[2].get(0).unwrap(), false);

    assert_eq!(raid.storage.get_data_layer(0).unwrap(), [false, true, false, true]);
    assert_eq!(raid.storage.get_data_layer(1).unwrap(), [false, true, true, false]);

    assert_eq!(raid.parity_disks[0].get(1).unwrap(), true);
    assert_eq!(raid.parity_disks[1].get(1).unwrap(), true);
    assert_eq!(raid.parity_disks[2].get(1).unwrap(), false);

    assert_eq!(raid.parity_disks[0].get(2), None);
    assert_eq!(raid.parity_disks[1].get(2), None);
    assert_eq!(raid.parity_disks[2].get(2), None);
}

#[test]
fn raid_raid_construct_hamming_code_test() {
    let disks = DiskStorage::new(4, 16);
    let mut raid = Raid::from_data(disks);
    raid.write_sequence(&[false, true, false, true, false, true, true, false, true]).unwrap();

    let code = raid.construct_hamming_code(0);
    assert_eq!(code, [false, true, false, false, true, false, true]);
}

#[test]
fn disks_raid_construct_hamming_code_test() {
    let disks = DiskStorage::new(4, 16);
    let mut raid = Raid::from_data(disks);
    raid.write_sequence(
        vec![false, true, false, true, false, true, true, false, true].as_slice(),
    )
    .unwrap();

    let code = raid.construct_hamming_code(0);
    assert_eq!(code, [false, true, false, false, true, false, true]);
}

#[test]
fn raid_raid_get_slice_test() {
    let disks = DiskStorage::new(4, 16);
    let mut raid = Raid::from_data(disks);

    raid.write_sequence(&[false, false, true, true]).unwrap();
    raid.write_sequence(&[true, true, true, true]).unwrap();

    let slice = raid.get_slice(1..6).unwrap();
    assert_eq!(slice, &[false, true, true, true, true]);

    let slice = raid.get_slice(4..8).unwrap();
    assert_eq!(slice, &[true, true, true, true]);
}

#[test]
fn disks_raid_get_slice_test() {
    let disks = DiskStorage::new(4, 16);
    let mut raid = Raid::from_data(disks);

    raid.write_sequence(vec![false, false, true, true].as_slice()).unwrap();
    raid.write_sequence(vec![true, true, true, true].as_slice()).unwrap();

    let slice = raid.get_slice(1..6).unwrap();
    assert_eq!(slice, &[false, true, true, true, true])
}

#[test]
fn raid_raid_get_slice_can_fix_error_test() {
    let disks = DiskStorage::new(4, 16);
    let mut raid = Raid::from_data(disks);

    raid.write_sequence(&[false, false, true, true]).unwrap();
    raid.write_sequence(&[true, true, true, true]).unwrap();
}

#[test]
fn disks_raid_get_slice_can_fix_error_test() {
    let disks = DiskStorage::new(4, 16);
    let mut raid = Raid::from_data(disks);

    raid.write_sequence(vec![false, false, true, true].as_slice()).unwrap();
    raid.write_sequence(vec![true, true, true, true].as_slice()).unwrap();

    raid.storage.disks[0].info[1] = false;
    let slice = raid.get_slice(1..6).unwrap();
    assert_eq!(slice, &[false, true, true, true, true]);
    assert_eq!(raid.storage.disks[0].info[1], true);
}

#[test]
fn raid_raid_get_bit_test() {
    let disks = DiskStorage::new(4, 16);
    let mut raid = Raid::from_data(disks);

    raid.write_sequence(&[false, false, false, true]).unwrap();
    raid.write_sequence(&[false, true, true, true]).unwrap();

    assert_eq!(raid.get_bit(2).unwrap(), false);
    assert_eq!(raid.get_bit(5).unwrap(), true);
}

#[test]
fn disks_raid_get_bit_test() {
    let disks = DiskStorage::new(4, 16);
    let mut raid = Raid::from_data(disks);

    raid.write_sequence(vec![false, false, false, true].as_slice()).unwrap();
    raid.write_sequence(vec![false, true, true, true].as_slice()).unwrap();

    assert_eq!(raid.get_bit(2).unwrap(), false);
    assert_eq!(raid.get_bit(5).unwrap(), true);
}
