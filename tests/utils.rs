use logstore::utils::buf2string;

#[test]
fn buf2string_renders_hex_pairs() {
    assert_eq!(buf2string(&[0x00, 0x1F, 0xAB]), "00 1F AB ");
    assert_eq!(buf2string(&[]), "");
    assert_eq!(logstore::record_file::buf2string(b"A"), "41 ");
}
