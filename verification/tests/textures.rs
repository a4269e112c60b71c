use raytracer::perlin::{low_byte, Perlin, PERLIN_POINT_COUNT};
use raytracer::texture::{bilinear_span, on_even_cell, ImageTexture};

#[test]
fn test_image_texture() {
    // a 3 by 2 image whose samples count up from the top left
    let data: Vec<u8> = (0..18).collect();
    let img = ImageTexture::new(3, 2, data).unwrap();
    for i in 0..img.width() {
        for j in 0..img.height() {
            let pixel = img.value(i, j).unwrap();
            println!("{:?}", pixel);
            let at = (3 * (j * 3 + i)) as u8;
            assert_eq!(pixel, [at, at + 1, at + 2]);
        }
    }
}

#[test]
fn an_image_texture_needs_a_texel_and_its_samples() {
    assert!(ImageTexture::new(0, 2, vec![0; 12]).is_none());
    assert!(ImageTexture::new(2, 0, vec![0; 12]).is_none());
    assert!(ImageTexture::new(2, 2, vec![0; 11]).is_none());
    assert!(ImageTexture::new(2, 2, vec![0; 12]).is_some());
    assert!(ImageTexture::new(2, 2, vec![0; 40]).is_some());
    assert!(ImageTexture::new(u32::MAX, u32::MAX, vec![0; 12]).is_none());
    let tex = ImageTexture::new(2, 2, vec![7; 12]).unwrap();
    assert_eq!((tex.width(), tex.height()), (2, 2));
    assert_eq!(tex.value(1, 1), Some([7, 7, 7]));
    assert_eq!(tex.value(2, 1), None);
    assert_eq!(tex.value(1, 2), None);
}

#[test]
fn checker_cells_alternate() {
    assert!(on_even_cell(0, 0, 0));
    assert!(!on_even_cell(1, 0, 0));
    assert!(!on_even_cell(0, 1, 0));
    assert!(!on_even_cell(0, 0, 1));
    assert!(on_even_cell(1, 1, 0));
    assert!(!on_even_cell(1, 1, 1));
    assert!(!on_even_cell(-1, 0, 0));
    assert!(on_even_cell(-1, 0, 1));
    assert!(on_even_cell(-3, -3, -2));
    assert!(!on_even_cell(i64::MAX, i64::MAX, i64::MAX));
    assert!(on_even_cell(i64::MIN, i64::MIN, i64::MIN));
    assert!(!on_even_cell(i64::MAX, i64::MIN, 0));
}

#[test]
fn a_blend_takes_a_texel_and_the_next_within_the_image() {
    assert_eq!(bilinear_span(3, 10), (3, 4));
    assert_eq!(bilinear_span(0, 10), (0, 1));
    assert_eq!(bilinear_span(-1, 10), (0, 1));
    assert_eq!(bilinear_span(9, 10), (9, 9));
    assert_eq!(bilinear_span(12, 10), (9, 9));
    assert_eq!(bilinear_span(8, 10), (8, 9));
    assert_eq!(bilinear_span(5, 1), (0, 0));
    assert_eq!(bilinear_span(i32::MIN, 2), (0, 1));
    assert_eq!(bilinear_span(i32::MAX, i32::MAX), (i32::MAX - 1, i32::MAX - 1));
}

#[test]
fn low_byte_is_never_negative() {
    assert_eq!(low_byte(0), 0);
    assert_eq!(low_byte(255), 255);
    assert_eq!(low_byte(256), 0);
    assert_eq!(low_byte(257), 1);
    assert_eq!(low_byte(-1), 255);
    assert_eq!(low_byte(-256), 0);
    assert_eq!(low_byte(-257), 255);
    assert_eq!(low_byte(i64::MAX), 255);
    assert_eq!(low_byte(i64::MIN), 0);
    for x in -1000i64..1000 {
        assert_eq!(low_byte(x), (x & 255) as usize);
    }
}

#[test]
fn a_table_holds_each_gradient_once() {
    for _ in 0..20 {
        let p = Perlin::perlin_generate_perm();
        assert_eq!(p.len(), PERLIN_POINT_COUNT);
        let mut seen = [false; 256];
        for &x in &p {
            assert!(x < 256);
            assert!(!seen[x]);
            seen[x] = true;
        }
    }
}

#[test]
fn tables_come_out_shuffled() {
    let sorted: Vec<usize> = (0..256).collect();
    let mut moved = 0;
    for _ in 0..10 {
        if Perlin::perlin_generate_perm() != sorted {
            moved += 1;
        }
    }
    assert!(moved > 0);
}

#[test]
fn two_tables_are_seldom_the_same() {
    let first = Perlin::perlin_generate_perm();
    let mut others = 0;
    for _ in 0..10 {
        if Perlin::perlin_generate_perm() != first {
            others += 1;
        }
    }
    assert!(others > 0);
}

#[test]
fn permute_keeps_what_it_shuffles() {
    let mut p = vec![5usize, 5, 9, 1, 0, 3];
    Perlin::permute(&mut p);
    let mut q = p.clone();
    q.sort();
    assert_eq!(q, vec![0, 1, 3, 5, 5, 9]);
    let mut one = vec![42usize];
    Perlin::permute(&mut one);
    assert_eq!(one, vec![42]);
    let mut none: Vec<usize> = Vec::new();
    Perlin::permute(&mut none);
    assert!(none.is_empty());
}

#[test]
fn cells_share_the_gradients_of_their_common_corners() {
    let field = Perlin::new();
    for (i, j, k) in [(0i64, 0i64, 0i64), (3, -7, 250), (-1, -1, -1), (255, 255, 255), (i64::MAX, i64::MIN, 12)] {
        let c = field.corners(i, j, k);
        for di in 0..2 {
            for dj in 0..2 {
                for dk in 0..2 {
                    assert!(c[di][dj][dk] < PERLIN_POINT_COUNT);
                }
            }
        }
        // the lattice repeats every 256 along each axis
        let far = field.corners(i.wrapping_add(256), j.wrapping_sub(512), k.wrapping_add(1024));
        assert_eq!(c, far);
        if i < i64::MAX {
            let next = field.corners(i + 1, j, k);
            assert_eq!(c[1][0][0], next[0][0][0]);
            assert_eq!(c[1][1][1], next[0][1][1]);
        }
    }
    // the corner past the largest coordinate wraps round to the start of the table
    let edge = field.corners(i64::MAX, 0, 0);
    let wrapped = field.corners(255, 0, 0);
    assert_eq!(edge, wrapped);
}
