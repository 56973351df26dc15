use gitsync::encoding::encode_image_data;

#[test]
fn images_are_base64_encoded() {
    assert_eq!(encode_image_data(&vec![]), "");
    assert_eq!(encode_image_data(&b"f".to_vec()), "Zg==");
    assert_eq!(encode_image_data(&b"fo".to_vec()), "Zm8=");
    assert_eq!(encode_image_data(&b"foo".to_vec()), "Zm9v");
    assert_eq!(encode_image_data(&b"foobar".to_vec()), "Zm9vYmFy");
    assert_eq!(encode_image_data(&vec![0xfb, 0xff]), "+/8=");
}
