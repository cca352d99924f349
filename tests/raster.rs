use tinyrenderer::geometry::Vec3;
use tinyrenderer::raster;
use tinyrenderer::tga_image::{TGAColor, TGAImage, GRAYSCALE};

fn lit(img: &TGAImage) -> Vec<(i32, i32)> {
    let mut pts = vec![];
    for y in 0..img.get_height() {
        for x in 0..img.get_width() {
            if img.get(x, y).blue() != 0 {
                pts.push((x, y));
            }
        }
    }
    pts
}

#[test]
fn horizontal_line() {
    let mut img = TGAImage::with_info(5, 3, GRAYSCALE);
    raster::line(Vec3::new(1, 1, 0), Vec3::new(3, 1, 0), &mut img, TGAColor::grayscale(255));
    assert_eq!(lit(&img), vec![(1, 1), (2, 1), (3, 1)]);
}

#[test]
fn shallow_line_rounds_half_up() {
    let mut img = TGAImage::with_info(4, 4, GRAYSCALE);
    raster::line(Vec3::new(0, 0, 0), Vec3::new(2, 1, 0), &mut img, TGAColor::grayscale(9));
    // at x = 1 the exact height is 0.5, which rounds up to 1
    assert_eq!(lit(&img), vec![(0, 0), (1, 1), (2, 1)]);
}

#[test]
fn steep_and_reversed_lines() {
    let mut img = TGAImage::with_info(4, 5, GRAYSCALE);
    raster::line(Vec3::new(1, 4, 0), Vec3::new(0, 0, 0), &mut img, TGAColor::grayscale(1));
    // one point per row; x = 0.25 * y rounded half up
    assert_eq!(lit(&img), vec![(0, 0), (0, 1), (1, 2), (1, 3), (1, 4)]);
}

#[test]
fn single_point_and_clipped_lines() {
    let mut img = TGAImage::with_info(3, 3, GRAYSCALE);
    raster::line(Vec3::new(2, 2, 0), Vec3::new(2, 2, 5), &mut img, TGAColor::grayscale(1));
    assert_eq!(lit(&img), vec![(2, 2)]);
    let mut img = TGAImage::with_info(3, 3, GRAYSCALE);
    raster::line(Vec3::new(-2, 1, 0), Vec3::new(5, 1, 0), &mut img, TGAColor::grayscale(1));
    assert_eq!(lit(&img), vec![(0, 1), (1, 1), (2, 1)]);
}
