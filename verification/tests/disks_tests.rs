use raid_2::raid::disks::{Disk, DiskStorage};

#[test]
fn disks_disk_write_get_test() {
    let mut disk = Disk::new(16);
    disk.write_bit(false).unwrap();
    disk.write_bit(true).unwrap();

    assert_eq!(false, disk.get(0).unwrap());
    assert_eq!(true, disk.get(1).unwrap());
}

#[test]
fn disks_disk_get_last_test() {
    let mut disk = Disk::new(16);
    disk.write_bit(false).unwrap();
    disk.write_bit(true).unwrap();

    assert_eq!(true, disk.get_last().unwrap());
}

#[test]
fn disks_disks_write_single_sequence_test() {
    let mut disks = DiskStorage::new(4, 16);

    disks.write_sequence(&[false, false, true, true]).unwrap();
    assert_eq!(disks.disks[0].get(0).unwrap(), false);
    assert_eq!(disks.disks[1].get(0).unwrap(), false);
    assert_eq!(disks.disks[2].get(0).unwrap(), true);
    assert_eq!(disks.disks[3].get(0).unwrap(), true);
    assert_eq!(disks.last_index, 4);

    disks.write_sequence(&[true, true, false, true]).unwrap();
    assert_eq!(disks.disks[0].get(1).unwrap(), true);
    assert_eq!(disks.disks[1].get(1).unwrap(), true);
    assert_eq!(disks.disks[2].get(1).unwrap(), false);
    assert_eq!(disks.disks[3].get(1).unwrap(), true);
    assert_eq!(disks.last_index, 8);
}

#[test]
fn disks_disks_write_multi_layer_sequence_test() {
    let mut disks = DiskStorage::new(4, 16);
    disks.write_sequence(&[true, false, true, true, false, false]).unwrap();
    assert_eq!(disks.disks[0].get(0).unwrap(), true);
    assert_eq!(disks.disks[1].get(0).unwrap(), false);
    assert_eq!(disks.disks[2].get(0).unwrap(), true);
    assert_eq!(disks.disks[3].get(0).unwrap(), true);

    assert_eq!(disks.disks[0].get(1).unwrap(), false);
    assert_eq!(disks.disks[1].get(1).unwrap(), false);

    disks.write_sequence(&[true, false, true]).unwrap();
    assert_eq!(disks.disks[2].get(1).unwrap(), true);
    assert_eq!(disks.disks[3].get(1).unwrap(), false);
    assert_eq!(disks.disks[0].get(2).unwrap(), true);
}

#[test]
fn disks_disks_read_slice_test() {
    let mut disks = DiskStorage::new(4, 16);

    disks.write_sequence(&[false, false, true, true]).unwrap();
    disks.write_sequence(&[true, true, true, true]).unwrap();

    let slice = disks.get_slice(1..6).unwrap();
    assert_eq!(slice, &[false, true, true, true, true])
}

#[test]
fn disks_disks_read_bit_test() {
    let mut disks = DiskStorage::new(4, 16);

    disks.write_sequence(&[false, true, false, true]).unwrap();
    disks.write_sequence(&[false, true, true, false]).unwrap();

    assert_eq!(disks.get_bit(3).unwrap(), true);
    assert_eq!(disks.get_bit(4).unwrap(), false);
    assert_eq!(disks.get_bit(5).unwrap(), true);
    assert_eq!(disks.get_bit(6).unwrap(), true);
    assert_eq!(disks.get_bit(7).unwrap(), false);
}

#[test]
fn disks_disks_get_layer_test() {
    let mut disks = DiskStorage::new(4, 16);

    disks
        .write_sequence(&[false, true, false, true, false, true, true, false, true])
        .unwrap();

    assert_eq!(disks.get_data_layer(0).unwrap(), [false, true, false, true]);
    assert_eq!(disks.get_data_layer(1).unwrap(), [false, true, true, false]);
    assert_eq!(disks.get_data_layer(2), Err("Layer is not full".to_string()));
}

#[test]
fn raid_disk_write_get_test() {
    let mut disk = Disk::new(16);
    disk.write_bit(false).unwrap();
    disk.write_bit(true).unwrap();

    assert_eq!(false, disk.get(0).unwrap());
    assert_eq!(true, disk.get(1).unwrap());
}

#[test]
fn raid_disk_get_last_test() {
    let mut disk = Disk::new(16);
    disk.write_bit(false).unwrap();
    disk.write_bit(true).unwrap();

    assert_eq!(true, disk.get_last().unwrap());
}

#[test]
fn raid_disks_write_single_sequence_test() {
    let mut disks = DiskStorage::new(4, 16);

    disks.write_sequence(vec![false, false, true, true].as_slice()).unwrap();
    assert_eq!(disks.disks[0].get(0).unwrap(), false);
    assert_eq!(disks.disks[1].get(0).unwrap(), false);
    assert_eq!(disks.disks[2].get(0).unwrap(), true);
    assert_eq!(disks.disks[3].get(0).unwrap(), true);
    assert_eq!(disks.last_index, 4);

    disks.write_sequence(vec![true, true, false, true].as_slice()).unwrap();
    assert_eq!(disks.disks[0].get(1).unwrap(), true);
    assert_eq!(disks.disks[1].get(1).unwrap(), true);
    assert_eq!(disks.disks[2].get(1).unwrap(), false);
    assert_eq!(disks.disks[3].get(1).unwrap(), true);
    assert_eq!(disks.last_index, 8);
}

#[test]
fn raid_disks_write_multi_layer_sequence_test() {
    let mut disks = DiskStorage::new(4, 16);
    disks.write_sequence(vec![true, false, true, true, false, false].as_slice()).unwrap();
    assert_eq!(disks.disks[0].get(0).unwrap(), true);
    assert_eq!(disks.disks[1].get(0).unwrap(), false);
    assert_eq!(disks.disks[2].get(0).unwrap(), true);
    assert_eq!(disks.disks[3].get(0).unwrap(), true);

    assert_eq!(disks.disks[0].get(1).unwrap(), false);
    assert_eq!(disks.disks[1].get(1).unwrap(), false);
}

#[test]
fn raid_disks_read_slice_test() {
    let mut disks = DiskStorage::new(4, 16);

    disks.write_sequence(vec![false, false, true, true].as_slice()).unwrap();
    disks.write_sequence(vec![true, true, true, true].as_slice()).unwrap();

    let slice = disks.get_slice(1..6).unwrap();
    assert_eq!(slice, &[false, true, true, true, true])
}

#[test]
fn raid_disks_read_bit_test() {
    let mut disks = DiskStorage::new(4, 16);

    disks.write_sequence(vec![false, true, false, true].as_slice()).unwrap();
    disks.write_sequence(vec![false, true, true, false].as_slice()).unwrap();

    assert_eq!(disks.get_bit(3).unwrap(), true);
    assert_eq!(disks.get_bit(4).unwrap(), false);
    assert_eq!(disks.get_bit(5).unwrap(), true);
    assert_eq!(disks.get_bit(6).unwrap(), true);
    assert_eq!(disks.get_bit(7).unwrap(), false);
}

#[test]
fn raid_disks_get_layer_test() {
    let mut disks = DiskStorage::new(4, 16);

    disks
        .write_sequence(vec![false, true, false, true, false, true, true, false, true].as_slice())
        .unwrap();

    assert_eq!(disks.get_data_layer(0).unwrap(), [false, true, false, true]);
    assert_eq!(disks.get_data_layer(1).unwrap(), [false, true, true, false]);
    assert_eq!(disks.get_data_layer(2), Err("Layer is not full".to_string()));
}

#[test]
fn disk_write_get_test() {
    let mut disk = Disk::new(16);
    disk.write_bit(false).unwrap();
    disk.write_bit(true).unwrap();

    assert_eq!(false, disk.get(0).unwrap());
    assert_eq!(true, disk.get(1).unwrap());
}

#[test]
fn disk_get_last_test() {
    let mut disk = Disk::new(16);
    disk.write_bit(false).unwrap();
    disk.write_bit(true).unwrap();

    assert_eq!(true, disk.get_last().unwrap());
}

#[test]
fn disks_write_single_sequence_test() {
    let mut disks = DiskStorage::new(4, 16);

    disks.write_sequence(&[false, false, true, true]).unwrap();
    assert_eq!(disks.disks[0].get(0).unwrap(), false);
    assert_eq!(disks.disks[1].get(0).unwrap(), false);
    assert_eq!(disks.disks[2].get(0).unwrap(), true);
    assert_eq!(disks.disks[3].get(0).unwrap(), true);
    assert_eq!(disks.last_index, 4);

    disks.write_sequence(&[true, true, false, true]).unwrap();
    assert_eq!(disks.disks[0].get(1).unwrap(), true);
    assert_eq!(disks.disks[1].get(1).unwrap(), true);
    assert_eq!(disks.disks[2].get(1).unwrap(), false);
    assert_eq!(disks.disks[3].get(1).unwrap(), true);
    assert_eq!(disks.last_index, 8);
}

#[test]
fn disks_write_multi_layer_sequence_test() {
    let mut disks = DiskStorage::new(4, 16);
    disks.write_sequence(&[true, false, true, true, false, false]).unwrap();
    assert_eq!(disks.disks[0].get(0).unwrap(), true);
    assert_eq!(disks.disks[1].get(0).unwrap(), false);
    assert_eq!(disks.disks[2].get(0).unwrap(), true);
    assert_eq!(disks.disks[3].get(0).unwrap(), true);

    assert_eq!(disks.disks[0].get(1).unwrap(), false);
    assert_eq!(disks.disks[1].get(1).unwrap(), false);

    disks.write_sequence(&[true, false, true]).unwrap();
    assert_eq!(disks.disks[2].get(1).unwrap(), true);
    assert_eq!(disks.disks[3].get(1).unwrap(), false);
    assert_eq!(disks.disks[0].get(2).unwrap(), true);
}

#[test]
fn disks_read_slice_test() {
    let mut disks = DiskStorage::new(4, 16);

    disks.write_sequence(&[false, false, true, true]).unwrap();
    disks.write_sequence(&[true, true, true, true]).unwrap();

    let slice = disks.get_slice(1..6).unwrap();
    assert_eq!(slice, &[false, true, true, true, true])
}

#[test]
fn disks_read_bit_test() {
    let mut disks = DiskStorage::new(4, 16);

    disks.write_sequence(&[false, true, false, true]).unwrap();
    disks.write_sequence(&[false, true, true, false]).unwrap();

    assert_eq!(disks.get_bit(3).unwrap(), true);
    assert_eq!(disks.get_bit(4).unwrap(), false);
    assert_eq!(disks.get_bit(5).unwrap(), true);
    assert_eq!(disks.get_bit(6).unwrap(), true);
    assert_eq!(disks.get_bit(7).unwrap(), false);
}

#[test]
fn disks_get_layer_test() {
    let mut disks = DiskStorage::new(4, 16);

    disks
        .write_sequence(&[false, true, false, true, false, true, true, false, true])
        .unwrap();

    assert_eq!(disks.get_data_layer(0).unwrap(), [false, true, false, true]);
    assert_eq!(disks.get_data_layer(1).unwrap(), [false, true, true, false]);
    assert_eq!(disks.get_data_layer(2), Err("Layer is not full".to_string()));
}
