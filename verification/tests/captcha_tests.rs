use cap_gen::bitmap::Bitmap;
use cap_gen::compose::CANVAS_H;
use cap_gen::compose::CANVAS_W;
use cap_gen::captcha::CaptchaData;
use cap_gen::captcha::CaptchaError;
use cap_gen::captcha::CaptchaGenerator;
use cap_gen::hexid::parse_id;
use cap_gen::rng::CaptchaRng;

/// A solid-colored, fully opaque bitmap.
fn solid(width: u32, height: u32, r: u8, g: u8, b: u8) -> Bitmap {
    solid_with_alpha(width, height, r, g, b, 255)
}

fn solid_with_alpha(width: u32, height: u32, r: u8, g: u8, b: u8, a: u8) -> Bitmap {
    let mut pixels = Vec::new();
    for _ in 0..(width as usize * height as usize) {
        pixels.push(r);
        pixels.push(g);
        pixels.push(b);
        pixels.push(a);
    }
    Bitmap::new(width, height, pixels).unwrap()
}

fn decode(bytes: &[u8]) -> (u32, u32, Vec<u8>) {
    let decoder = png::Decoder::new(bytes);
    let mut reader = decoder.read_info().unwrap();
    let mut buf = vec![0u8; reader.output_buffer_size()];
    let info = reader.next_frame(&mut buf).unwrap();
    assert_eq!(info.color_type, png::ColorType::Rgba);
    buf.truncate(info.buffer_size());
    (info.width, info.height, buf)
}

fn pixel(buf: &[u8], x: usize, y: usize) -> (u8, u8, u8, u8) {
    let i = 4 * (y * 550 + x);
    (buf[i], buf[i + 1], buf[i + 2], buf[i + 3])
}

fn catalog_abc() -> CaptchaGenerator {
    CaptchaGenerator::new(vec![
        ("41".to_string(), solid(40, 40, 255, 0, 0)),
        ("42".to_string(), solid(60, 60, 0, 255, 0)),
        ("43".to_string(), solid(50, 50, 0, 0, 255)),
    ])
}

#[test]
fn parse_id_accepts_lowercase_hex() {
    assert_eq!(parse_id("1f600"), Some('\u{1f600}'));
}

#[test]
fn parse_id_accepts_uppercase_and_leading_zeros() {
    assert_eq!(parse_id("41"), Some('A'));
    assert_eq!(parse_id("0041"), Some('A'));
    assert_eq!(parse_id("1F600"), Some('\u{1f600}'));
}

#[test]
fn parse_id_rejects_bad_names() {
    assert_eq!(parse_id(""), None);
    assert_eq!(parse_id("zz"), None);
    assert_eq!(parse_id("41.png"), None);
    assert_eq!(parse_id("d800"), None); // surrogate
    assert_eq!(parse_id("110000"), None); // above the last scalar value
    assert_eq!(parse_id("fffffffff"), None); // does not fit in 32 bits
}

#[test]
fn bitmap_new_checks_buffer_length() {
    assert!(Bitmap::new(2, 2, vec![0u8; 16]).is_some());
    assert!(Bitmap::new(2, 2, vec![0u8; 15]).is_none());
}

#[test]
fn catalog_skips_bad_names_and_keeps_last_bitmap() {
    let cat = CaptchaGenerator::new(vec![
        ("41".to_string(), solid(2, 2, 255, 0, 0)),
        ("junk".to_string(), solid(2, 2, 9, 9, 9)),
        ("41".to_string(), solid(2, 2, 0, 255, 0)),
    ]);
    assert_eq!(cat.emojis, vec!['A']);
    assert_eq!(cat.images.len(), 1);
    // the later entry overwrote the earlier bitmap
    assert_eq!(cat.images[0].pixels[0], 0);
    assert_eq!(cat.images[0].pixels[1], 255);
}

#[test]
fn empty_catalog_is_refused() {
    let cat = CaptchaGenerator::new(Vec::new());
    let mut rng = CaptchaRng::from_seed(7);
    let r = cat.generate(3, 2, &mut rng);
    assert_eq!(r.err(), Some(CaptchaError::CatalogEmpty));
}

#[test]
fn zero_counts_are_refused() {
    let cat = catalog_abc();
    let mut rng = CaptchaRng::from_seed(7);
    assert_eq!(
        cat.generate(0, 2, &mut rng).err(),
        Some(CaptchaError::InvalidRequest)
    );
    assert_eq!(
        cat.generate(3, 0, &mut rng).err(),
        Some(CaptchaError::InvalidRequest)
    );
}

fn assert_distinct(cs: &[char]) {
    for i in 0..cs.len() {
        for j in 0..cs.len() {
            if i != j {
                assert_ne!(cs[i], cs[j]);
            }
        }
    }
}

#[test]
fn display_and_keyboard_sets_are_well_formed() {
    let cat = CaptchaGenerator::new(vec![
        ("41".to_string(), solid(10, 10, 255, 0, 0)),
        ("42".to_string(), solid(10, 10, 0, 255, 0)),
        ("43".to_string(), solid(10, 10, 0, 0, 255)),
        ("44".to_string(), solid(10, 10, 9, 9, 9)),
        ("45".to_string(), solid(10, 10, 7, 7, 7)),
    ]);
    let mut rng = CaptchaRng::from_seed(42);
    let data = cat.generate(3, 2, &mut rng).unwrap();
    assert_eq!(data.image_emojis.len(), 3);
    assert_eq!(data.keyboard_emojis.len(), 2);
    assert_distinct(&data.image_emojis);
    assert_distinct(&data.keyboard_emojis);
    assert!(data.image_emojis.contains(&data.correct_emoji));
    assert!(data.keyboard_emojis.contains(&data.correct_emoji));
    for c in data.image_emojis.iter().chain(data.keyboard_emojis.iter()) {
        assert!(cat.emojis.contains(c));
    }
}

#[test]
fn display_count_is_clamped_to_catalog_size() {
    let cat = catalog_abc();
    let mut rng = CaptchaRng::from_seed(3);
    let data = cat.generate(10, 1, &mut rng).unwrap();
    assert_eq!(data.image_emojis.len(), 3);
    assert_eq!(data.keyboard_emojis.len(), 1);
    assert_eq!(data.keyboard_emojis[0], data.correct_emoji);
}

#[test]
fn same_seed_reproduces_the_challenge() {
    let cat = catalog_abc();
    let mut rng1 = CaptchaRng::from_seed(12345);
    let mut rng2 = CaptchaRng::from_seed(12345);
    let a = cat.generate(3, 2, &mut rng1).unwrap();
    let b = cat.generate(3, 2, &mut rng2).unwrap();
    assert_eq!(a.correct_emoji, b.correct_emoji);
    assert_eq!(a.image_emojis, b.image_emojis);
    assert_eq!(a.keyboard_emojis, b.keyboard_emojis);
    assert_eq!(a.image, b.image);
}

#[test]
fn repeated_draws_change_the_ordering() {
    let cat = CaptchaGenerator::new(vec![
        ("41".to_string(), solid(10, 10, 255, 0, 0)),
        ("42".to_string(), solid(10, 10, 0, 255, 0)),
        ("43".to_string(), solid(10, 10, 0, 0, 255)),
        ("44".to_string(), solid(10, 10, 9, 9, 9)),
        ("45".to_string(), solid(10, 10, 7, 7, 7)),
        ("46".to_string(), solid(10, 10, 5, 5, 5)),
    ]);
    let mut rng = CaptchaRng::from_seed(1);
    let mut orderings = Vec::new();
    for _ in 0..4 {
        let data = cat.generate(4, 2, &mut rng).unwrap();
        orderings.push(data.image_emojis);
    }
    assert!(
        orderings.windows(2).any(|w| w[0] != w[1]),
        "four consecutive draws all gave the same display order"
    );
}

#[test]
fn canvas_is_550_by_180_with_white_background() {
    let cat = CaptchaGenerator::new(vec![("41".to_string(), solid(40, 40, 200, 10, 10))]);
    let mut rng = CaptchaRng::from_seed(9);
    let data = cat.generate(1, 1, &mut rng).unwrap();
    let (w, h, buf) = decode(&data.image);
    assert_eq!((w as usize, h as usize), (CANVAS_W, CANVAS_H));
    // the single 40x40 glyph sits at x in [255, 295), y in [70, 110)
    for y in 0..180 {
        for x in 0..550 {
            let inside = (255..295).contains(&x) && (70..110).contains(&y);
            let got = pixel(&buf, x, y);
            if inside {
                assert_eq!(got, (200, 10, 10, 255), "glyph pixel at {} {}", x, y);
            } else {
                assert_eq!(got, (255, 255, 255, 255), "background at {} {}", x, y);
            }
        }
    }
}

#[test]
fn single_glyph_left_edge_is_centered() {
    let cat = CaptchaGenerator::new(vec![("41".to_string(), solid(100, 20, 1, 2, 3))]);
    let mut rng = CaptchaRng::from_seed(11);
    let data = cat.generate(1, 1, &mut rng).unwrap();
    let (_, _, buf) = decode(&data.image);
    let y = 90; // vertical center, inside the glyph (y in [80, 100))
    assert_eq!(pixel(&buf, 225, y), (1, 2, 3, 255)); // left edge at (550 - 100) / 2
    assert_eq!(pixel(&buf, 224, y), (255, 255, 255, 255));
    assert_eq!(pixel(&buf, 324, y), (1, 2, 3, 255)); // right edge
    assert_eq!(pixel(&buf, 325, y), (255, 255, 255, 255));
}

#[test]
fn transparent_regions_keep_the_white_background() {
    // fully transparent glyph: the canvas stays white inside its footprint
    let cat = CaptchaGenerator::new(vec![(
        "41".to_string(),
        solid_with_alpha(40, 40, 9, 9, 9, 0),
    )]);
    let mut rng = CaptchaRng::from_seed(5);
    let data = cat.generate(1, 1, &mut rng).unwrap();
    let (_, _, buf) = decode(&data.image);
    assert_eq!(pixel(&buf, 275, 90), (255, 255, 255, 255));
}

#[test]
fn half_transparent_red_blends_over_white() {
    let cat = CaptchaGenerator::new(vec![(
        "41".to_string(),
        solid_with_alpha(40, 40, 255, 0, 0, 128),
    )]);
    let mut rng = CaptchaRng::from_seed(5);
    let data = cat.generate(1, 1, &mut rng).unwrap();
    let (_, _, buf) = decode(&data.image);
    // (src * 128 + 255 * 127 + 127) / 255, rounded fixed point
    assert_eq!(pixel(&buf, 275, 90), (255, 127, 127, 255));
}

#[test]
fn end_to_end_three_glyph_scenario() {
    let cat = catalog_abc();
    let seed = 2024;
    let mut rng = CaptchaRng::from_seed(seed);
    let data = cat.generate(3, 2, &mut rng).unwrap();

    // with three glyphs and (3, 2) requested, the draw is clamped to the
    // whole catalog: all three glyphs are displayed, and the keyboard is
    // exactly the shared (correct) glyph
    assert_eq!(data.image_emojis.len(), 3);
    assert_distinct(&data.image_emojis);
    for c in ['A', 'B', 'C'] {
        assert!(data.image_emojis.contains(&c));
    }
    assert_eq!(data.keyboard_emojis, vec![data.correct_emoji]);

    // a fixed seed reproduces the challenge exactly
    let mut rng2 = CaptchaRng::from_seed(seed);
    let again = cat.generate(3, 2, &mut rng2).unwrap();
    assert_eq!(again.correct_emoji, data.correct_emoji);
    assert_eq!(again.image_emojis, data.image_emojis);
    assert_eq!(again.keyboard_emojis, data.keyboard_emojis);
    assert_eq!(again.image, data.image);

    // pixel layout: row of widths 40, 60, 50 with two 20 unit gaps,
    // centered: total 190, starting at x = 180
    let (w, h, buf) = decode(&data.image);
    assert_eq!((w, h), (550, 180));
    let color_of = |c: char| match c {
        'A' => (255, 0, 0, 255),
        'B' => (0, 255, 0, 255),
        _ => (0, 0, 255, 255),
    };
    let width_of = |c: char| match c {
        'A' => 40,
        'B' => 60,
        _ => 50,
    };
    let mut x = (550 - 190) / 2;
    assert_eq!(x, 180);
    for &c in &data.image_emojis {
        let wd: usize = width_of(c);
        // sample the center of this glyph's footprint
        assert_eq!(pixel(&buf, x + wd / 2, 90), color_of(c), "glyph {}", c);
        // the gap after the glyph is white
        if x + wd + 10 < 550 {
            assert_eq!(pixel(&buf, x + wd + 10, 90), (255, 255, 255, 255));
        }
        x += wd + 20;
    }
    assert_eq!(pixel(&buf, 0, 0), (255, 255, 255, 255));
    assert_eq!(pixel(&buf, 549, 179), (255, 255, 255, 255));
}

#[test]
fn entropy_seeded_generator_works() {
    let cat = catalog_abc();
    let mut rng = CaptchaRng::from_entropy();
    let data = cat.generate(2, 2, &mut rng).unwrap();
    assert_eq!(data.image_emojis.len(), 2);
    assert_eq!(data.keyboard_emojis.len(), 2);
    assert!(data.keyboard_emojis.contains(&data.correct_emoji));
}

#[test]
fn challenge_fields_travel_together() {
    let cat = catalog_abc();
    let mut rng = CaptchaRng::from_seed(77);
    let CaptchaData {
        correct_emoji,
        image_emojis,
        keyboard_emojis,
        image,
    } = cat.generate(2, 2, &mut rng).unwrap();
    assert!(image_emojis.contains(&correct_emoji));
    assert!(keyboard_emojis.contains(&correct_emoji));
    assert!(!image.is_empty());
    assert_eq!(&image[..8], &[0x89, b'P', b'N', b'G', 0x0d, 0x0a, 0x1a, 0x0a]);
}

#[test]
fn sampling_draws_distinct_indices() {
    let mut rng = CaptchaRng::from_seed(6);
    let drawn = cap_gen::sample::sample_indices(10, 7, &mut rng);
    assert_eq!(drawn.len(), 7);
    for i in 0..drawn.len() {
        assert!(drawn[i] < 10);
        for j in 0..drawn.len() {
            if i != j {
                assert_ne!(drawn[i], drawn[j]);
            }
        }
    }
}

#[test]
fn shuffling_keeps_the_set_of_indices() {
    let mut rng = CaptchaRng::from_seed(8);
    let mut v: Vec<usize> = (0..20).collect();
    cap_gen::sample::shuffle_indices(&mut v, &mut rng);
    assert_eq!(v.len(), 20);
    let mut sorted = v.clone();
    sorted.sort();
    assert_eq!(sorted, (0..20).collect::<Vec<usize>>());
}
