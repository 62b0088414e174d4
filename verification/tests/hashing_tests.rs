//! Tests of the fingerprint generator and the batch hasher, over images
//! built in memory.

use image_dups::get_clusters;
use image_dups::hash_img;
use image_dups::hash_img_list;
use image_dups::hash_source;
use image_dups::make_hasher;
use image_dups::HashConfig;
use image_dups::HashOutcome;
use image_dups::HashSizeError;
use image_dups::ImageSource;

/// Encode a 64x64 grayscale image, pixel value chosen per coordinate, as
/// PNG bytes.
fn png_bytes(f: fn(u32, u32) -> u8) -> Vec<u8> {
    let img = image::GrayImage::from_fn(64, 64, |x, y| image::Luma([f(x, y)]));
    let mut buf: Vec<u8> = Vec::new();
    let mut cur = std::io::Cursor::new(&mut buf);
    image::DynamicImage::ImageLuma8(img)
        .write_to(&mut cur, image::ImageFormat::Png)
        .unwrap();
    buf
}

/// High-frequency deterministic noise; different seeds give structurally
/// different images, so their mean DCT hashes differ.
fn noise(seed: u32, x: u32, y: u32) -> u8 {
    let mut v = x
        .wrapping_mul(2654435761)
        .wrapping_add(y.wrapping_mul(40503))
        .wrapping_add(seed.wrapping_mul(97911));
    v ^= v >> 13;
    v = v.wrapping_mul(1274126177);
    v ^= v >> 16;
    (v % 256) as u8
}

fn texture_a(x: u32, y: u32) -> u8 {
    noise(1, x, y)
}

fn texture_b(x: u32, y: u32) -> u8 {
    noise(2, x, y)
}

fn texture_c(x: u32, y: u32) -> u8 {
    noise(3, x, y)
}

fn texture_d(x: u32, y: u32) -> u8 {
    noise(4, x, y)
}

fn texture_e(x: u32, y: u32) -> u8 {
    noise(5, x, y)
}

fn config16() -> HashConfig {
    make_hasher(16).unwrap()
}

#[test]
fn same_hash() {
    let img = png_bytes(texture_a);
    let hasher = config16();
    let hash1 = hash_img(&img, &hasher);
    let hash2 = hash_img(&img, &hasher);
    assert!(matches!(hash1, HashOutcome::Hash(_)));
    assert_eq!(hash1, hash2);
}

#[test]
fn same_hash_list() {
    let img = png_bytes(texture_a);
    let img_list = vec![ImageSource::Bytes(img.clone()), ImageSource::Bytes(img)];
    let hasher = config16();
    let hashes = hash_img_list(&img_list, &hasher);
    assert_eq!(hashes.len(), 2);
    assert!(matches!(hashes[0], HashOutcome::Hash(_)));
    assert_eq!(hashes[0], hashes[1]);
}

#[test]
fn parallel_hash_stable() {
    // The parallel batch must produce the same sequence as hashing each
    // element in order, one at a time.
    let test_images = vec![
        ImageSource::Bytes(png_bytes(texture_a)),
        ImageSource::Bytes(png_bytes(texture_b)),
        ImageSource::Bytes(png_bytes(texture_c)),
        ImageSource::Bytes(png_bytes(texture_d)),
        ImageSource::Bytes(png_bytes(texture_e)),
    ];
    let hasher = config16();
    let mut hashes_single: Vec<HashOutcome> = Vec::new();
    for src in &test_images {
        hashes_single.push(hash_source(src, &hasher));
    }
    let hashes_parallel = hash_img_list(&test_images, &hasher);
    assert_eq!(hashes_single, hashes_parallel);
}

#[test]
fn test_get_clusters() {
    // Indices 0, 6, 7, 8 carry one image, 2, 9, 10 another; 3 is not an
    // image at all; 1, 4, 5 are distinct from everything else.
    let img_a = png_bytes(texture_a);
    let img_c = png_bytes(texture_c);
    let test_images = vec![
        ImageSource::Bytes(img_a.clone()),
        ImageSource::Bytes(png_bytes(texture_b)),
        ImageSource::Bytes(img_c.clone()),
        ImageSource::Bytes(vec![0u8, 1, 2, 3]),
        ImageSource::Bytes(png_bytes(texture_d)),
        ImageSource::Bytes(png_bytes(texture_e)),
        ImageSource::Bytes(img_a.clone()),
        ImageSource::Bytes(img_a.clone()),
        ImageSource::Bytes(img_a),
        ImageSource::Bytes(img_c.clone()),
        ImageSource::Bytes(img_c),
    ];

    let hasher = config16();
    let hashes = hash_img_list(&test_images, &hasher);
    assert!(matches!(hashes[3], HashOutcome::DecodeFailure));

    // Exact matches.
    let hashmap = get_clusters(&hashes, 0);
    assert_eq!(hashmap.get(0), Some(&vec![6usize, 7, 8]));
    assert_eq!(hashmap.get(2), Some(&vec![9usize, 10]));

    // At the largest possible distance (16 * 16 bits) everything that
    // hashed at all matches the first image.
    let hashmap = get_clusters(&hashes, 256);
    assert_eq!(hashmap.get(0), Some(&vec![1usize, 2, 4, 5, 6, 7, 8, 9, 10]));
    assert!(hashmap.get(3).is_none());
}

#[test]
fn fingerprint_has_configured_width() {
    // A 16x16 hash carries 256 bits packed into 32 bytes, whatever the
    // input image size.
    let img = png_bytes(texture_c);
    match hash_img(&img, &config16()) {
        HashOutcome::Hash(f) => assert_eq!(f.as_bytes().len(), 32),
        _ => panic!("expected a fingerprint"),
    }
    match hash_img(&img, &make_hasher(4).unwrap()) {
        HashOutcome::Hash(f) => assert_eq!(f.as_bytes().len(), 2),
        _ => panic!("expected a fingerprint"),
    }
}

#[test]
fn undecodable_bytes_are_a_decode_failure() {
    let garbage = vec![42u8; 100];
    assert!(matches!(
        hash_img(&garbage, &config16()),
        HashOutcome::DecodeFailure
    ));
    let empty: Vec<u8> = Vec::new();
    assert!(matches!(
        hash_img(&empty, &config16()),
        HashOutcome::DecodeFailure
    ));
}

#[test]
fn unavailable_source_is_recorded_in_place() {
    let img_list = vec![
        ImageSource::Bytes(png_bytes(texture_a)),
        ImageSource::Unavailable,
        ImageSource::Bytes(png_bytes(texture_b)),
    ];
    let hashes = hash_img_list(&img_list, &config16());
    assert_eq!(hashes.len(), 3);
    assert!(matches!(hashes[0], HashOutcome::Hash(_)));
    assert!(matches!(hashes[1], HashOutcome::SourceUnavailable));
    assert!(matches!(hashes[2], HashOutcome::Hash(_)));
}

#[test]
fn empty_batch_gives_empty_set() {
    let img_list: Vec<ImageSource> = Vec::new();
    let hashes = hash_img_list(&img_list, &config16());
    assert!(hashes.is_empty());
}

#[test]
fn make_hasher_accepts_only_supported_sizes() {
    for size in [4u32, 8, 16, 32, 64, 128, 256, 512] {
        let config = make_hasher(size).unwrap();
        assert_eq!(config.hash_size(), size);
    }
    for size in [0u32, 1, 2, 3, 5, 6, 7, 9, 15, 17, 100, 513, 1024] {
        assert_eq!(make_hasher(size), Err(HashSizeError::Unsupported));
    }
}

#[test]
fn different_images_have_different_fingerprints() {
    // The two images differ structurally, so the mean DCT hash must differ;
    // this would fail if hashing handed its input back unchanged or ignored
    // the image content.
    let hasher = config16();
    let h1 = hash_img(&png_bytes(texture_c), &hasher);
    let h2 = hash_img(&png_bytes(texture_e), &hasher);
    match (h1, h2) {
        (HashOutcome::Hash(f1), HashOutcome::Hash(f2)) => {
            assert!(f1.dist(&f2) > 0);
        },
        _ => panic!("expected fingerprints"),
    }
}
