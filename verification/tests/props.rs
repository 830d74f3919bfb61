use aes_modes::cbc;
use aes_modes::ctr;
use aes_modes::ctr::Endian;
use aes_modes::ecb;
use aes_modes::pkcs7;
use aes_modes::xor;
use aes_modes::xor_equals;

#[test]
fn xor_combines_bytes() {
    let left = [0b1010_1010_u8, 0x00, 0xff, 0x0f];
    let right = [0b0110_0110_u8, 0xff, 0xff, 0xf0];

    let res = xor(&left, &right).unwrap();
    assert_eq!(res, vec![0b1100_1100_u8, 0xff, 0x00, 0xff]);
}

#[test]
fn xor_mismatched_lengths_fail() {
    let left = [1_u8, 2, 3];
    let right = [1_u8, 2];

    assert!(xor(&left, &right).is_err());
    assert!(xor(&right, &left).is_err());

    let mut buf = left.to_vec();
    assert!(xor_equals(&mut buf, &right).is_err());
    // the buffer is untouched on failure
    assert_eq!(buf, left.to_vec());
}

#[test]
fn xor_equals_matches_xor() {
    let left = [0x12_u8, 0x34, 0x56, 0x78];
    let right = [0xff_u8, 0x00, 0xaa, 0x55];

    let mut buf = left.to_vec();
    xor_equals(&mut buf, &right).unwrap();
    assert_eq!(buf, xor(&left, &right).unwrap());
}

#[test]
fn ecb_identical_blocks_encrypt_identically() {
    let msg = b"same same block!same same block!";
    let key = b"0123456789abcdef";

    let cipher = ecb::encrypt(msg.as_ref(), key).unwrap();
    assert_eq!(cipher[..16], cipher[16..32]);
}

#[test]
fn cbc_diffusion_changes_block_i_only_forward() {
    let msg1 = b"first block xxxxsecond block yyythird block zzzz".to_vec();
    let mut msg2 = msg1.clone();
    // flip one byte inside the second block
    msg2[20] ^= 0x01;

    let key = b"0123456789abcdef";
    let iv = [7_u8; 16];

    let c1 = cbc::encrypt(&msg1, key, &iv).unwrap();
    let c2 = cbc::encrypt(&msg2, key, &iv).unwrap();

    // the block before the change is untouched, the changed block differs
    assert_eq!(c1[..16], c2[..16]);
    assert_ne!(c1[16..32], c2[16..32]);
}

#[test]
fn ctr_counter_advances_once_per_partial_chunk() {
    let key = b"0123456789abcdef";
    let msg = [0xab_u8; 20];

    // 20 bytes consume two keystream blocks: one full, one partial
    let mut count: u64 = 5;
    let cipher = ctr::encrypt(&msg, key, 42, &mut count, &Endian::Big);
    assert_eq!(count, 7);
    assert_eq!(cipher.len(), 20);

    // an empty message consumes no keystream at all
    let mut count2: u64 = 5;
    let empty = ctr::encrypt(&[], key, 42, &mut count2, &Endian::Big);
    assert_eq!(count2, 5);
    assert!(empty.is_empty());
}

#[test]
fn ctr_round_trip_arbitrary_length() {
    let key = b"fedcba9876543210";
    let msg = b"an odd-length message, 37 bytes o";

    let mut count: u64 = 1000;
    let cipher = ctr::encrypt(msg.as_ref(), key, 99, &mut count, &Endian::Little);

    let mut count_copy: u64 = 1000;
    let plain = ctr::decrypt(&cipher, key, 99, &mut count_copy, &Endian::Little);

    assert_eq!(plain, msg.to_vec());
    assert_eq!(count, count_copy);
}

#[test]
fn ctr_endianness_changes_keystream() {
    let key = b"0123456789abcdef";
    let msg = [0_u8; 16];

    let mut count_be: u64 = 0x0102030405060708;
    let big = ctr::encrypt(&msg, key, 1, &mut count_be, &Endian::Big);

    let mut count_le: u64 = 0x0102030405060708;
    let little = ctr::encrypt(&msg, key, 1, &mut count_le, &Endian::Little);

    assert_ne!(big, little);
}

#[test]
fn pad_aligned_buffer_is_unchanged() {
    let msg = [3_u8; 32];
    let padded = pkcs7::pad(&msg);
    assert_eq!(padded, msg.to_vec());

    let empty: [u8; 0] = [];
    assert!(pkcs7::pad(&empty).is_empty());
}

#[test]
fn pad_unpad_round_trip_non_aligned() {
    let msg = b"hello";
    let padded = pkcs7::pad(msg.as_ref());
    assert_eq!(padded.len(), 16);
    assert_eq!(pkcs7::unpad(&padded).unwrap(), msg.to_vec());

    // a buffer whose own last byte equals the padding value still round-trips
    let tricky = [9_u8, 9, 9];
    let padded = pkcs7::pad(&tricky);
    assert_eq!(pkcs7::unpad(&padded).unwrap(), tricky.to_vec());
}

#[test]
fn unpad_rejects_bad_lengths() {
    let short = [1_u8; 8];
    assert!(matches!(
        pkcs7::unpad(&short),
        Err(pkcs7::Error::InvalidLength)
    ));

    let misaligned = [1_u8; 24];
    assert!(matches!(
        pkcs7::unpad(&misaligned),
        Err(pkcs7::Error::InvalidLength)
    ));
}

#[test]
fn unpad_rejects_inconsistent_padding() {
    // last byte names a 2-byte run, but the byte before it does not match,
    // and the trailing block holds padding-valued bytes
    let mut buf = [0_u8; 16];
    buf[14] = 3;
    buf[15] = 2;
    assert!(matches!(
        pkcs7::unpad(&buf),
        Err(pkcs7::Error::InvalidPadding)
    ));
}

#[test]
fn unpad_accepts_never_padded_tail() {
    // no byte of the trailing block is a padding value: returned unchanged
    let buf = [0_u8; 32];
    assert_eq!(pkcs7::unpad(&buf).unwrap(), buf.to_vec());

    let mut high = [0xab_u8; 16];
    high[15] = 16;
    assert_eq!(pkcs7::unpad(&high).unwrap(), high.to_vec());
}

#[test]
fn unpad_full_padding_block_removed_entirely() {
    // a trailing block of sixteen 16s is stripped from a longer buffer
    let mut buf = [0xcd_u8; 32];
    for j in 16..32 {
        buf[j] = 16;
    }
    assert_eq!(pkcs7::unpad(&buf).unwrap(), vec![0xcd_u8; 16]);
}

#[test]
fn ecb_cbc_round_trips() {
    let msg = [0x5a_u8; 64];
    let key = b"abcdefghijklmnop";
    let iv = [0x11_u8; 16];

    let e = ecb::encrypt(&msg, key).unwrap();
    assert_eq!(ecb::decrypt(&e, key).unwrap(), msg.to_vec());

    let c = cbc::encrypt(&msg, key, &iv).unwrap();
    assert_eq!(cbc::decrypt(&c, key, &iv).unwrap(), msg.to_vec());
}

#[test]
fn mode_length_validation() {
    let msg = [0_u8; 15];
    let key = b"abcdefghijklmnop";
    let iv = [0_u8; 16];

    assert!(matches!(
        ecb::encrypt(&msg, key),
        Err(ecb::Error::InvalidLength)
    ));
    assert!(matches!(
        ecb::decrypt(&msg, key),
        Err(ecb::Error::InvalidLength)
    ));
    assert!(matches!(
        cbc::encrypt(&msg, key, &iv),
        Err(aes_modes::Error::InvalidLength)
    ));
    assert!(matches!(
        cbc::decrypt(&msg, key, &iv),
        Err(aes_modes::Error::InvalidLength)
    ));
}

#[test]
fn block_count_values() {
    assert_eq!(ctr::get_block_count(0), 0);
    assert_eq!(ctr::get_block_count(1), 1);
    assert_eq!(ctr::get_block_count(16), 1);
    assert_eq!(ctr::get_block_count(17), 2);
    assert_eq!(ctr::get_block_count(32), 2);
    assert_eq!(ctr::get_block_count(33), 3);
}
