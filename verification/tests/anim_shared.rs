use whoa::anim::{braille_texture, ConfigItem, ConfigScalar, Gradient, GradientConfig, GradientError};

fn ints(v: &[i64]) -> Vec<ConfigScalar> {
    v.iter().map(|&x| ConfigScalar::Integer(x)).collect()
}

fn stop(v: &[i64]) -> ConfigItem {
    ConfigItem::Array(ints(v))
}

fn table(bg: Option<Vec<ConfigScalar>>, stops: Option<Vec<ConfigItem>>) -> GradientConfig {
    GradientConfig { is_table: true, bg, stops }
}

#[test]
fn braille_texture_starts_blank_and_ends_full() {
    let t = braille_texture();
    assert_eq!(t[0], '\u{2800}');
    assert_eq!(t[255], '\u{28FF}');
    // then the eight one-dot patterns in increasing order
    let one_dot: Vec<char> = (0..8).map(|k| char::from_u32(0x2800 + (1u32 << k)).unwrap()).collect();
    assert_eq!(&t[1..9], &one_dot[..]);
}

#[test]
fn braille_texture_is_ordered_by_dots() {
    let t = braille_texture();
    let dots = |c: char| (c as u32 - 0x2800).count_ones();
    for i in 1..256 {
        let (a, b) = (t[i - 1], t[i]);
        assert!(dots(a) < dots(b) || (dots(a) == dots(b) && a < b));
    }
    let mut all: Vec<char> = t.to_vec();
    all.sort();
    all.dedup();
    assert_eq!(all.len(), 256);
    assert_eq!(t[9], '\u{2803}');
}

#[test]
fn builtin_gradients() {
    let g = Gradient::ocean();
    assert_eq!(g.bg, Some([0, 0, 20]));
    assert_eq!(g.stops, vec![[0, 0, 50], [0, 120, 200], [200, 240, 255]]);
    let g = Gradient::fire();
    assert_eq!(g.bg, Some([10, 0, 0]));
    assert_eq!(g.stops, vec![[20, 0, 0], [200, 30, 0], [255, 150, 0], [255, 255, 100]]);
    let g = Gradient::vapor();
    assert_eq!(g.bg, Some([15, 0, 30]));
    assert_eq!(g.stops, vec![[40, 0, 80], [200, 0, 150], [255, 100, 200], [0, 255, 255]]);
    let g = Gradient::mono();
    assert_eq!(g.bg, Some([0, 0, 0]));
    assert_eq!(g.stops, vec![[20, 20, 20], [255, 255, 255]]);
    let g = Gradient::aurora();
    assert_eq!(g.bg, Some([0, 0, 15]));
    assert_eq!(g.stops, vec![[0, 0, 40], [0, 200, 100], [0, 150, 200], [150, 0, 200]]);
}

#[test]
fn gradient_from_config() {
    let cfg = table(
        Some(ints(&[0, 10, 0])),
        Some(vec![stop(&[0, 20, 0]), stop(&[0, 100, 30]), stop(&[50, 200, 50]), stop(&[150, 255, 150])]),
    );
    let g = Gradient::from_value(&cfg).unwrap();
    assert_eq!(g.bg, Some([0, 10, 0]));
    assert_eq!(g.stops, vec![[0, 20, 0], [0, 100, 30], [50, 200, 50], [150, 255, 150]]);
}

#[test]
fn gradient_missing_values_default_to_zero() {
    // no bg: black; short arrays are padded with zeros
    let cfg = table(None, Some(vec![stop(&[7]), stop(&[])]));
    let g = Gradient::from_value(&cfg).unwrap();
    assert_eq!(g.bg, Some([0, 0, 0]));
    assert_eq!(g.stops, vec![[7, 0, 0], [0, 0, 0]]);
    let g = Gradient::from_value(&table(Some(ints(&[1, 2])), Some(vec![]))).unwrap();
    assert_eq!(g.bg, Some([1, 2, 0]));
    assert!(g.stops.is_empty());
    // entries past the third are ignored
    let g = Gradient::from_value(&table(Some(ints(&[1, 2, 3, 999])), Some(vec![stop(&[4, 5, 6, -1])]))).unwrap();
    assert_eq!(g.bg, Some([1, 2, 3]));
    assert_eq!(g.stops, vec![[4, 5, 6]]);
}

#[test]
fn gradient_errors() {
    let not_table = GradientConfig { is_table: false, bg: None, stops: None };
    assert_eq!(Gradient::from_value(&not_table).err(), Some(GradientError::NotATable));

    let bg_other = table(Some(vec![ConfigScalar::Integer(1), ConfigScalar::Other]), Some(vec![]));
    assert_eq!(Gradient::from_value(&bg_other).err(), Some(GradientError::BgNotIntegers));

    let bg_big = table(Some(ints(&[0, 256, 0])), Some(vec![]));
    assert_eq!(Gradient::from_value(&bg_big).err(), Some(GradientError::BgOutOfRange));

    let bg_negative = table(Some(ints(&[-1, 0, 0])), None);
    assert_eq!(Gradient::from_value(&bg_negative).err(), Some(GradientError::BgOutOfRange));

    let no_stops = table(None, None);
    assert_eq!(Gradient::from_value(&no_stops).err(), Some(GradientError::MissingStops));

    let stop_not_array = table(None, Some(vec![stop(&[1, 2, 3]), ConfigItem::Other]));
    assert_eq!(Gradient::from_value(&stop_not_array).err(), Some(GradientError::StopNotIntegers));

    let stop_other = table(None, Some(vec![ConfigItem::Array(vec![ConfigScalar::Other])]));
    assert_eq!(Gradient::from_value(&stop_other).err(), Some(GradientError::StopNotIntegers));

    let stop_big = table(None, Some(vec![stop(&[1, 2, 300]), ConfigItem::Other]));
    assert_eq!(Gradient::from_value(&stop_big).err(), Some(GradientError::StopOutOfRange));
}
