use autograd::mnist::{one_hot_encoding, parse_images, parse_labels, pixel_values, read_be_u32, render_row};
use autograd::rational::Rat;

#[test]
fn big_endian_field() {
    let bytes = vec![1u8, 2, 3, 4];
    assert_eq!(read_be_u32(&bytes, 0), 0x0102_0304);
}

#[test]
fn parse_labels_ok() {
    let bytes = vec![0u8, 0, 8, 1, 0, 0, 0, 3, 7, 2, 9];
    let labels = parse_labels(&bytes).unwrap();
    assert_eq!(labels, vec![7u8, 2, 9]);
}

#[test]
fn parse_labels_rejects_bad_input() {
    assert!(parse_labels(&vec![0u8, 0, 8, 1]).is_none());
    // wrong magic
    assert!(parse_labels(&vec![0u8, 0, 8, 2, 0, 0, 0, 0]).is_none());
    // fewer bytes than the count announces
    assert!(parse_labels(&vec![0u8, 0, 8, 1, 0, 0, 0, 2, 5]).is_none());
}

#[test]
fn parse_labels_ignores_surplus_bytes() {
    let bytes = vec![0u8, 0, 8, 1, 0, 0, 0, 2, 7, 2, 99, 99];
    let labels = parse_labels(&bytes).unwrap();
    assert_eq!(labels, vec![7u8, 2]);
}

#[test]
fn parse_images_ok() {
    let mut bytes = vec![0u8, 0, 8, 3, 0, 0, 0, 2, 0, 0, 0, 2, 0, 0, 0, 2];
    bytes.extend_from_slice(&[10, 20, 30, 40, 50, 60, 70, 80]);
    let labels = vec![4u8, 9];
    let images = parse_images(&bytes, &labels).unwrap();
    assert_eq!(images.len(), 2);
    assert_eq!(images[0].label, 4);
    assert_eq!(images[1].label, 9);
    assert_eq!(images[0].index, 0);
    assert_eq!(images[1].index, 1);
    assert_eq!(images[0].dimensions.width, 2);
    assert_eq!(images[0].dimensions.height, 2);
    assert_eq!(images[0].pixels, vec![10u8, 20, 30, 40]);
    assert_eq!(images[1].pixels, vec![50u8, 60, 70, 80]);
}

#[test]
fn parse_images_rejects_bad_input() {
    let mut bytes = vec![0u8, 0, 8, 3, 0, 0, 0, 2, 0, 0, 0, 2, 0, 0, 0, 2];
    bytes.extend_from_slice(&[10, 20, 30, 40, 50, 60, 70, 80]);
    // count disagrees with the labels
    assert!(parse_images(&bytes, &vec![1u8]).is_none());
    // wrong magic
    let mut bad = bytes.clone();
    bad[3] = 1;
    assert!(parse_images(&bad, &vec![4u8, 9]).is_none());
    // truncated pixel area
    let short = bytes[..20].to_vec();
    assert!(parse_images(&short, &vec![4u8, 9]).is_none());
}

#[test]
fn parse_images_ignores_surplus() {
    let mut bytes = vec![0u8, 0, 8, 3, 0, 0, 0, 2, 0, 0, 0, 2, 0, 0, 0, 2];
    bytes.extend_from_slice(&[10, 20, 30, 40, 50, 60, 70, 80, 99, 99]);
    // trailing bytes and an extra label are both ignored
    let images = parse_images(&bytes, &vec![4u8, 9, 1]).unwrap();
    assert_eq!(images.len(), 2);
    assert_eq!(images[1].pixels, vec![50u8, 60, 70, 80]);
}

#[test]
fn one_hot_has_single_one() {
    let r = one_hot_encoding(3);
    assert_eq!(r.len(), 10);
    for (i, v) in r.iter().enumerate() {
        if i == 3 {
            assert!(v.eq_rat(&Rat::one()));
        } else {
            assert!(v.eq_rat(&Rat::zero()));
        }
    }
}

#[test]
fn render_row_marks_bright_pixels() {
    let bytes = {
        let mut b = vec![0u8, 0, 8, 3, 0, 0, 0, 1, 0, 0, 0, 2, 0, 0, 0, 2];
        b.extend_from_slice(&[200, 3, 124, 123]);
        b
    };
    let images = parse_images(&bytes, &vec![5u8]).unwrap();
    assert_eq!(render_row(&images[0], 0), "0 ");
    assert_eq!(render_row(&images[0], 1), "0 ");
}

#[test]
fn pixel_values_scale_bytes() {
    let bytes = {
        let mut b = vec![0u8, 0, 8, 3, 0, 0, 0, 1, 0, 0, 0, 1, 0, 0, 0, 2];
        b.extend_from_slice(&[255, 51]);
        b
    };
    let images = parse_images(&bytes, &vec![0u8]).unwrap();
    let vals = pixel_values(&images[0]);
    assert!(vals[0].eq_rat(&Rat::one()));
    assert!(vals[1].eq_rat(&Rat::new(1, 5)));
}
