use rt::ppm::{write_ppm, Rgb8, MAX_PPM_LINE_LEN};

#[test]
fn ppm_body_lines_stay_within_limit_and_keep_all_samples() {
    let pixels = vec![Rgb8::new(255, 255, 255); 40];
    let mut out = Vec::new();
    write_ppm(&mut out, 10, 4, &pixels);

    let text = String::from_utf8(out).expect("ASCII PPM");
    let lines: Vec<&str> = text.lines().collect();
    assert_eq!(lines[0], "P3");
    assert_eq!(lines[1], "10 4");
    assert_eq!(lines[2], "255");
    assert!(lines[3..].iter().all(|line| line.len() <= MAX_PPM_LINE_LEN));

    let samples = lines[3..]
        .iter()
        .flat_map(|line| line.split_whitespace())
        .count();
    assert_eq!(samples, 40 * 3);
}

fn encode(width: usize, height: usize, pixels: &[Rgb8]) -> String {
    let mut out = Vec::new();
    write_ppm(&mut out, width, height, pixels);
    String::from_utf8(out).expect("ASCII PPM")
}

#[test]
fn ppm_small_image_exact_text() {
    let pixels = [Rgb8::new(0, 0, 0), Rgb8::new(255, 128, 7)];
    assert_eq!(encode(2, 1, &pixels), "P3\n2 1\n255\n0 0 0 255 128 7\n");
}

#[test]
fn ppm_empty_image_has_only_the_header() {
    assert_eq!(encode(0, 0, &[]), "P3\n0 0\n255\n");
    assert_eq!(encode(0, 5, &[]), "P3\n0 5\n255\n");
}

#[test]
fn ppm_wraps_before_the_line_would_exceed_the_limit() {
    // Five "255 255 255" triplets take 59 characters; a sixth would need 71.
    let pixels = vec![Rgb8::new(255, 255, 255); 7];
    let text = encode(7, 1, &pixels);
    let lines: Vec<&str> = text.lines().collect();
    assert_eq!(lines.len(), 5);
    assert_eq!(lines[3], vec!["255 255 255"; 5].join(" "));
    assert_eq!(lines[3].len(), 59);
    assert_eq!(lines[4], "255 255 255 255 255 255");
}

#[test]
fn ppm_fills_a_line_up_to_exactly_the_limit() {
    // "1 1 1" is 5 characters; eleven of them with spaces take 65, twelve take 71.
    let pixels = vec![Rgb8::new(1, 1, 1); 12];
    let text = encode(12, 1, &pixels);
    let lines: Vec<&str> = text.lines().collect();
    assert_eq!(lines.len(), 5);
    assert_eq!(lines[3].len(), 65);
    assert_eq!(lines[4], "1 1 1");
}

#[test]
fn ppm_keeps_every_sample_in_order() {
    let mut pixels = Vec::new();
    for i in 0..50u32 {
        pixels.push(Rgb8::new((i * 5) as u8, (i * 3) as u8, (255 - i) as u8));
    }
    let text = encode(10, 5, &pixels);
    let lines: Vec<&str> = text.lines().collect();
    assert!(lines[3..].iter().all(|line| line.len() <= MAX_PPM_LINE_LEN));
    let samples: Vec<u32> = lines[3..]
        .iter()
        .flat_map(|line| line.split_whitespace())
        .map(|s| s.parse().unwrap())
        .collect();
    let expected: Vec<u32> = pixels
        .iter()
        .flat_map(|p| vec![p.r as u32, p.g as u32, p.b as u32])
        .collect();
    assert_eq!(samples, expected);
    // No line splits a pixel: every line holds a multiple of three samples.
    assert!(lines[3..].iter().all(|line| line.split_whitespace().count() % 3 == 0));
}

#[test]
fn ppm_appends_to_existing_output() {
    let mut out = b"prefix".to_vec();
    write_ppm(&mut out, 1, 1, &[Rgb8::new(9, 10, 100)]);
    assert_eq!(out, b"prefixP3\n1 1\n255\n9 10 100\n".to_vec());
}

#[test]
fn ppm_breaks_only_when_the_next_pixel_would_not_fit() {
    let mut pixels = Vec::new();
    for i in 0..60u32 {
        pixels.push(Rgb8::new((i * 37 % 256) as u8, (i * 11) as u8, (i % 10) as u8));
    }
    let text = encode(60, 1, &pixels);
    let lines: Vec<&str> = text.lines().collect();
    for k in 3..lines.len() - 1 {
        let next: Vec<&str> = lines[k + 1].split_whitespace().take(3).collect();
        let next_pixel = next.join(" ");
        assert!(lines[k].len() + 1 + next_pixel.len() > MAX_PPM_LINE_LEN);
    }
}
