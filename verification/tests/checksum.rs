use rustnet::packet::checksum;

#[test]
fn nothing_sums_to_all_ones() {
    assert_eq!(checksum(&[]), 0xFFFF);
    assert_eq!(checksum(&[&[]]), 0xFFFF);
    assert_eq!(checksum(&[&[0, 0, 0, 0]]), 0xFFFF);
}

#[test]
fn an_odd_last_byte_is_a_high_byte() {
    assert_eq!(checksum(&[&[0x12]]), 0xEDFF);
    assert_eq!(checksum(&[&[0x12, 0x34, 0x56]]), !(0x1234 + 0x5600));
}

#[test]
fn carries_come_around() {
    assert_eq!(checksum(&[&[0xFF, 0xFF, 0xFF, 0xFF]]), 0);
    assert_eq!(checksum(&[&[0xFF, 0xFF, 0x00, 0x01]]), 0xFFFE);
    let many = [0xFFu8; 4096];
    assert_eq!(checksum(&[&many]), 0);
}

#[test]
fn chunk_boundaries_do_not_matter_at_any_cut() {
    let data = [0x00, 0x01, 0xf2, 0x03, 0xf4, 0xf5, 0xf6, 0xf7, 0x99];
    let whole = checksum(&[&data]);
    for i in 0..=data.len() {
        assert_eq!(checksum(&[&data[..i], &data[i..]]), whole);
        for j in i..=data.len() {
            assert_eq!(checksum(&[&data[..i], &data[i..j], &data[j..]]), whole);
        }
    }
}

#[test]
fn an_empty_chunk_changes_nothing() {
    assert_eq!(checksum(&[&[1], &[], &[2]]), 0xFEFD);
    assert_eq!(checksum(&[&[1], &[], &[2]]), checksum(&[&[1, 2]]));
    assert_eq!(checksum(&[&[], &[1], &[], &[], &[2, 3], &[]]), checksum(&[&[1, 2, 3]]));
}

#[test]
fn a_written_checksum_verifies() {
    for n in 0..64u8 {
        let mut message: Vec<u8> = (0..21u8).map(|i| i.wrapping_mul(37).wrapping_add(n)).collect();
        message[6] = 0;
        message[7] = 0;
        let sum = checksum(&[&message]);
        message[6] = (sum >> 8) as u8;
        message[7] = sum as u8;
        assert_eq!(checksum(&[&message]), 0);
    }
}

#[test]
fn every_changed_byte_is_detected() {
    let mut message = vec![0x45, 0x00, 0x12, 0x34, 0, 0, 0xFF, 0x00, 0x00, 0xFF];
    let sum = checksum(&[&message]);
    message[4] = (sum >> 8) as u8;
    message[5] = sum as u8;
    assert_eq!(checksum(&[&message]), 0);
    for i in 0..message.len() {
        for v in 0..=255u8 {
            if v != message[i] {
                let mut damaged = message.clone();
                damaged[i] = v;
                assert_ne!(checksum(&[&damaged]), 0);
            }
        }
    }
}
