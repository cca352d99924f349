use tinyrenderer::geometry::Vec3;
use tinyrenderer::obj::{classify_line, parse_face_corner, parse_face_line, split_words, ObjLine};

#[test]
fn face_corners_become_zero_based() {
    assert_eq!(parse_face_corner(b"24/1/24"), Some(Vec3::new(23, 0, 23)));
    assert_eq!(parse_face_corner(b"1/1/1"), Some(Vec3::new(0, 0, 0)));
    assert_eq!(parse_face_corner(b"-1/+2/0"), Some(Vec3::new(-2, 1, -1)));
}

#[test]
fn face_line_tokens_parse() {
    let line = "f 24/1/24 25/2/25 26/3/26";
    let corners: Vec<_> = line.split_whitespace().skip(1).map(|t| parse_face_corner(t.as_bytes())).collect();
    assert_eq!(
        corners,
        vec![Some(Vec3::new(23, 0, 23)), Some(Vec3::new(24, 1, 24)), Some(Vec3::new(25, 2, 25))]
    );
}

#[test]
fn malformed_face_corners_are_refused() {
    assert_eq!(parse_face_corner(b""), None);
    assert_eq!(parse_face_corner(b"1/2"), None);
    assert_eq!(parse_face_corner(b"1/2/3/4"), None);
    assert_eq!(parse_face_corner(b"1//3"), None);
    assert_eq!(parse_face_corner(b"a/1/1"), None);
    assert_eq!(parse_face_corner(b"1/-/1"), None);
    assert_eq!(parse_face_corner(b"1/2/3 "), None);
}

#[test]
fn face_corner_indices_must_fit() {
    assert_eq!(parse_face_corner(b"2147483647/1/1"), Some(Vec3::new(2147483646, 0, 0)));
    assert_eq!(parse_face_corner(b"2147483648/1/1"), None);
    assert_eq!(parse_face_corner(b"-2147483647/1/1"), Some(Vec3::new(i32::MIN, 0, 0)));
    assert_eq!(parse_face_corner(b"-2147483648/1/1"), None);
    assert_eq!(parse_face_corner(b"99999999999999999999/1/1"), None);
}

#[test]
fn face_lines_give_their_corners() {
    assert_eq!(
        parse_face_line(b"f 24/1/24 25/2/25 26/3/26"),
        Some(vec![Vec3::new(23, 0, 23), Vec3::new(24, 1, 24), Vec3::new(25, 2, 25)])
    );
    assert_eq!(parse_face_line(b"  f\t1/1/1   2/2/2\r"), Some(vec![Vec3::new(0, 0, 0), Vec3::new(1, 1, 1)]));
    assert_eq!(parse_face_line(b"f"), Some(vec![]));
    assert_eq!(parse_face_line(b"f 1/1/1 x"), None);
    assert_eq!(parse_face_line(b"v 1/1/1"), None);
    assert_eq!(parse_face_line(b"ff 1/1/1"), None);
    assert_eq!(parse_face_line(b""), None);
}

#[test]
fn words_split_on_white_space() {
    assert_eq!(split_words(b" a\tbc \n d "), vec![b"a".to_vec(), b"bc".to_vec(), b"d".to_vec()]);
    assert_eq!(split_words(b"   "), Vec::<Vec<u8>>::new());
}

#[test]
fn lines_are_classified_by_their_first_word() {
    assert_eq!(classify_line(b"v -0.000581696 -0.734665 -0.623267"), ObjLine::Vertex);
    assert_eq!(classify_line(b"vt  0.532 0.923 0.000"), ObjLine::TexCoord);
    assert_eq!(classify_line(b"vn  0.001 0.482 -0.876"), ObjLine::Normal);
    assert_eq!(classify_line(b"f 24/1/24 25/2/25 26/3/26"), ObjLine::Face);
    assert_eq!(classify_line(b"# v 1 2 3"), ObjLine::Other);
    assert_eq!(classify_line(b"v 1 2 3 # trailing note"), ObjLine::Other);
    assert_eq!(classify_line(b"g head"), ObjLine::Other);
    assert_eq!(classify_line(b""), ObjLine::Other);
}
