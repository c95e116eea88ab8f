use aquatrace::binary64::Binary64;
use aquatrace::elevation::elevation_gain_loss;
use aquatrace::order::{stable_order, SortKey};
use aquatrace::osm_dataset::{OsmElement, WaterObjectScan};
use aquatrace::osm_tags::place_from_parts;
use aquatrace::text::{
    chars_of, ends_with, is_white_space, lower, push_decimal, push_padded, read_signed,
    read_unsigned, same_text, starts_with, text_of, trim,
};
use aquatrace::types::{BBox, RoutePoint};

fn number(value: f64) -> Binary64 {
    Binary64 { bits: value.to_bits() }
}

fn value(number: Binary64) -> f64 {
    f64::from_bits(number.bits)
}

#[test]
fn written_numbers_are_read_back() {
    for n in [0, 7, 10, 99, 100, 123_456_789, u64::MAX] {
        let mut text = String::from("x");
        push_decimal(&mut text, n);
        assert_eq!(text, format!("x{n}"));
        assert_eq!(read_unsigned(&text[1..], u64::MAX), Some(n));
        let mut padded = String::new();
        push_padded(&mut padded, n, 6);
        assert_eq!(padded, format!("{n:06}"));
    }
    assert_eq!(read_signed("-42"), Some(-42));
    assert_eq!(read_unsigned("-42", u64::MAX), None);
}

#[test]
fn texts_are_handled_as_the_standard_library_handles_them() {
    for text in ["", " ", " a ", "\u{3000}é\u{85}", "a\tb", "\u{200b}x", "ÀÉ.GPX", ".gpx"] {
        assert_eq!(trim(text), text.trim());
        assert_eq!(lower(text), text.to_ascii_lowercase());
        assert_eq!(chars_of(text), text.chars().collect::<Vec<char>>());
        assert_eq!(ends_with(text, ".gpx"), text.ends_with(".gpx"));
        assert_eq!(starts_with(text, " "), text.starts_with(' '));
        assert!(same_text(text, text));
        assert!(!same_text(text, "other"));
    }
    for code in 0..0x11_0000_u32 {
        if let Some(c) = char::from_u32(code) {
            assert_eq!(is_white_space(c), c.is_whitespace(), "{code:x}");
        }
    }
    assert_eq!(text_of(&vec!['a', 'b', 'c'], 1, 3), "bc");
}

#[test]
fn stable_orders_agree_with_a_stable_sort() {
    let mut state: u64 = 1;
    let mut keys: Vec<SortKey> = Vec::new();
    for _ in 0..500 {
        state = state.wrapping_mul(6_364_136_223_846_793_005).wrapping_add(1_442_695_040_888_963_407);
        keys.push(SortKey { major: i128::from((state >> 60) as i64) - 8, minor: i128::from((state >> 55) & 3) });
    }
    let mut expected: Vec<usize> = (0..keys.len()).collect();
    expected.sort_by_key(|i| (keys[*i].major, keys[*i].minor));
    assert_eq!(stable_order(&keys), expected);
}

#[test]
fn climbs_and_descents_agree_with_arithmetic_on_floats() {
    let elevations = [100.0, 104.0, 95.0, 130.0, 118.0, 119.0, 90.0, 90.0, 101.0, 99.0, 140.5];
    let points: Vec<RoutePoint> = elevations
        .iter()
        .map(|e| RoutePoint { lat: number(0.0), lon: number(0.0), ele: Some(number(*e)) })
        .collect();
    let (gain, loss) = elevation_gain_loss(
        &points,
        &|upper, lower, limit| value(upper) - value(lower) >= value(limit),
        &|total, upper, lower| number(value(total) + (value(upper) - value(lower))),
    );
    assert_eq!((value(gain), value(loss)), (35.0 + 50.5, 5.0 + 40.0));
}

#[test]
fn covering_passes_on() {
    let at = |lat: f64, lon: f64| RoutePoint { lat: number(lat), lon: number(lon), ele: None };
    let small = BBox::from_points(&[at(1.0, 1.0)]).unwrap();
    let middle = BBox::from_points(&[at(0.0, 0.0), at(2.0, 2.0)]).unwrap();
    let large = BBox::from_points(&[at(-5.0, -5.0), at(5.0, 5.0)]).unwrap();
    assert!(large.contains(middle) && middle.contains(small) && large.contains(small));
    assert!(large.contains(middle.union(small)));
}

#[test]
fn merging_does_not_depend_on_the_parts() {
    let tags = |name: &'static str| [("amenity", "drinking_water"), ("name", name)];
    let (a, b, c) = (tags("a"), tags("b"), tags("c"));
    let scan = |tags: &[(&str, &str)], id: i64| {
        WaterObjectScan::of_element(&OsmElement::Node { id, lat: number(1.0), lon: number(2.0), tags })
    };
    let left = scan(&a, 1).merge(scan(&b, 1)).merge(scan(&c, 2));
    let right = scan(&a, 1).merge(scan(&b, 1).merge(scan(&c, 2)));
    for id in [1, 2] {
        assert_eq!(left.points[&id].name, right.points[&id].name);
    }
    assert_eq!(left.points[&1].name.as_deref(), Some("b"));
    assert_eq!(scan(&a, 1).merge(WaterObjectScan::empty()).points.len(), 1);
}

#[test]
fn search_texts_begin_with_the_name_and_hold_the_aliases() {
    let point = RoutePoint { lat: number(1.0), lon: number(2.0), ele: None };
    let tags = [("official_name", "Ville de X"), ("name", "X"), ("place", "city"), ("name:en", "Ex")];
    let place = place_from_parts(1, point, &tags).unwrap();
    assert!(place.search_text.starts_with("X"));
    assert!(place.search_text.contains("Ville de X") && place.search_text.contains("Ex"));
}
