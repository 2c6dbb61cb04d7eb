use one_weekend_raytracer::image_texture::ImageTexture;
use one_weekend_raytracer::perlin::{generate_perm, is_permutation_table, shuffle, LatticeHash, LATTICE_SIZE};

fn two_by_two() -> ImageTexture {
    let pixels: Vec<u8> = vec![
        1, 2, 3, 4, 5, 6, //
        7, 8, 9, 10, 11, 12,
    ];
    ImageTexture::new(2, 2, pixels).expect("valid image")
}

#[test]
fn texel_reads_row_major_pixels() {
    let t = two_by_two();
    assert_eq!(t.texel(0, 0), [1, 2, 3]);
    assert_eq!(t.texel(1, 0), [4, 5, 6]);
    assert_eq!(t.texel(0, 1), [7, 8, 9]);
    assert_eq!(t.texel(1, 1), [10, 11, 12]);
}

#[test]
fn texel_clamps_to_the_last_pixel() {
    let t = two_by_two();
    assert_eq!(t.texel(2, 0), [4, 5, 6]);
    assert_eq!(t.texel(0, 9), [7, 8, 9]);
    assert_eq!(t.texel(u32::MAX, u32::MAX), [10, 11, 12]);
}

#[test]
fn image_with_wrong_length_is_refused() {
    assert!(ImageTexture::new(2, 2, vec![0; 11]).is_none());
    assert!(ImageTexture::new(0, 2, vec![]).is_none());
    assert!(ImageTexture::new(2, 0, vec![]).is_none());
    assert!(ImageTexture::new(1, 1, vec![9, 9, 9]).is_some());
}

#[test]
fn permutation_holds_every_slot_once() {
    let p = generate_perm();
    assert_eq!(p.len(), LATTICE_SIZE);
    let mut sorted = p.clone();
    sorted.sort();
    assert_eq!(sorted, (0..256u32).collect::<Vec<_>>());
}

#[test]
fn permutations_are_shuffled() {
    let identity: Vec<u32> = (0..256u32).collect();
    let shuffled = (0..3).map(|_| generate_perm()).filter(|p| *p != identity).count();
    assert!(shuffled > 0);
}

#[test]
fn lattice_index_combines_the_three_tables() {
    let h = LatticeHash::new();
    for (x, y, z) in [(0, 0, 0), (1, 2, 3), (-1, -2, -3), (255, 256, 257), (i32::MIN, i32::MAX, -256)] {
        let expected = h.perm_x[(x as u32 & 255) as usize]
            ^ h.perm_y[(y as u32 & 255) as usize]
            ^ h.perm_z[(z as u32 & 255) as usize];
        assert_eq!(h.index(x, y, z), expected as usize);
        assert!(h.index(x, y, z) < LATTICE_SIZE);
    }
}

#[test]
fn lattice_wraps_every_256() {
    let h = LatticeHash::new();
    assert_eq!(h.index(3, 4, 5), h.index(3 + 256, 4 - 256, 5 + 512));
    assert_eq!(h.index(-1, 0, 0), h.index(255, 0, 0));
}

#[test]
fn shuffle_with_own_positions_keeps_the_table() {
    let draws: Vec<usize> = (0..256).collect();
    assert_eq!(shuffle(&draws), (0..256u32).collect::<Vec<_>>());
}

#[test]
fn shuffle_with_zero_draws_rotates() {
    // swapping 255..1 each with slot 0 moves every entry one place up
    let draws: Vec<usize> = vec![0; 256];
    let r = shuffle(&draws);
    let mut expected: Vec<u32> = vec![1];
    expected.extend(2..256u32);
    expected.push(0);
    assert_eq!(r, expected);
}

#[test]
fn shuffle_single_swap() {
    let mut draws: Vec<usize> = (0..256).collect();
    draws[255] = 3;
    let r = shuffle(&draws);
    assert_eq!(r[255], 3);
    assert_eq!(r[3], 255);
    assert_eq!(r[4], 4);
}

#[test]
fn permutation_tables_are_recognised() {
    assert!(is_permutation_table(&(0..256u32).collect()));
    assert!(!is_permutation_table(&(0..255u32).collect()));
    let mut dup: Vec<u32> = (0..256u32).collect();
    dup[7] = 8;
    assert!(!is_permutation_table(&dup));
    let mut big: Vec<u32> = (0..256u32).collect();
    big[0] = 256;
    assert!(!is_permutation_table(&big));
    assert!(LatticeHash::new().is_valid());
}

#[test]
fn image_validity() {
    assert!(two_by_two().is_valid());
    let broken = ImageTexture { width: 2, height: 2, pixels: vec![0; 5] };
    assert!(!broken.is_valid());
    let empty = ImageTexture { width: 0, height: 1, pixels: vec![] };
    assert!(!empty.is_valid());
}
