use collatz_cert::hex::hex;

#[test]
fn hex_renders_lower_case_pairs() {
    assert_eq!(hex(&[0x00, 0x0f, 0xab, 0xff, 0x10]), "000fabff10");
    assert_eq!(hex(&[]), "");
}
