use aes_modes::ecb::decrypt;
use aes_modes::ecb::encrypt;

#[test]
fn check_aes_128_ecb() {
    let txt = b"This block good! This block good";
    let key = b"YELLOW SUBMARINE";

    assert!(encrypt(&txt[..], key).is_ok());

    // use an invalid length plaintext, ensure error is returned
    assert!(encrypt(&txt[1..], key).is_err());
}

#[test]
fn check_aes_inv_128_ecb() {
    let txt = b"This block good! This block good";
    let key = b"YELLOW SUBMARINE";

    let cipher = encrypt(&txt[..], key);
    assert!(cipher.is_ok());

    let pt = decrypt(&cipher.unwrap(), key);
    assert!(pt.is_ok());
    assert_eq!(pt.unwrap()[..], txt[..]);
}
