use polygons_rust::colors::Color;

/// Multiplies a color by a non-negative floating scale factor, handing the
/// library the factor as an exact fraction.
fn scale(c: Color, factor: f32) -> Color {
    let mut num = factor;
    let mut den: u32 = 1;
    while num.fract() != 0.0 {
        num *= 2.0;
        den *= 2;
    }
    c.mul(num as u32, den)
}

#[test]
fn test_color_creation() {
    let color = Color::new(255, 255, 255);
    assert_eq!(color.r, 255);
    assert_eq!(color.g, 255);
    assert_eq!(color.b, 255);
}

#[test]
fn test_color_addition() {
    let color1 = Color::new(200, 100, 50);
    let color2 = Color::new(55, 155, 205);
    let result = color1.add(color2);
    assert_eq!(result, Color::new(255, 255, 255));
}

#[test]
fn test_color_multiplication() {
    let color = Color::new(10, 20, 30);
    let result = scale(color, 10.0);
    assert_eq!(result, Color::new(100, 200, 255));
}

#[test]
fn test_hex_conversion() {
    let color = Color::new(16, 32, 48);
    assert_eq!(color.to_hex(), 0x102030);
}

#[test]
fn test_hex_parsing() {
    let color = Color::from_hex(0x102030);
    assert_eq!(color, Color::new(16, 32, 48));
}

#[test]
fn test_color_addition_saturates() {
    let result = Color::new(250, 250, 250).add(Color::new(10, 10, 10));
    assert_eq!(result, Color::new(255, 255, 255));
}

#[test]
fn test_color_subtraction_saturates() {
    let result = Color::new(5, 5, 5).sub(Color::new(10, 10, 10));
    assert_eq!(result, Color::new(0, 0, 0));
}

#[test]
fn test_color_subtraction() {
    let result = Color::new(200, 100, 50).sub(Color::new(50, 25, 10));
    assert_eq!(result, Color::new(150, 75, 40));
}

#[test]
fn test_color_multiplication_clamps() {
    let result = scale(Color::new(100, 100, 100), 3.0);
    assert_eq!(result, Color::new(255, 255, 255));
}

#[test]
fn test_color_multiplication_fraction_truncates() {
    // 0.5 scales each channel to half, truncated
    let result = scale(Color::new(7, 100, 255), 0.5);
    assert_eq!(result, Color::new(3, 50, 127));
}

#[test]
fn test_hex_round_trip_all_channel_extremes() {
    for &h in &[0x000000u32, 0xFFFFFF, 0xFF0000, 0x00FF00, 0x0000FF, 0x123456, 0xABCDEF] {
        assert_eq!(Color::from_hex(h).to_hex(), h);
    }
}
