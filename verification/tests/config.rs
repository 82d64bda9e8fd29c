use whoa::config::{parse_config, request_edits, request_of, AnimCommand, FlagValue};

fn flag_text(v: &FlagValue<f32>) -> String {
    match v {
        FlagValue::Integer(i) => format!("int {i}"),
        FlagValue::Boolean(b) => format!("bool {b}"),
        FlagValue::Text(s) => format!("text {s}"),
        FlagValue::Float(f) => format!("float {f}"),
    }
}

fn flags(v: &[(String, FlagValue<f32>)]) -> Vec<(String, String)> {
    v.iter().map(|(k, x)| (k.clone(), flag_text(x))).collect()
}

fn pairs(v: &[(&str, &str)]) -> Vec<(String, String)> {
    v.iter().map(|(k, x)| (k.to_string(), x.to_string())).collect()
}

#[test]
fn parse_config_reads_toml() {
    let v = parse_config("animation_time = 30.0\n[collapse]\ndirection = \"down\"\n").unwrap();
    assert_eq!(v.get("animation_time").and_then(|t| t.as_float()), Some(30.0));
    assert_eq!(v.get("collapse").and_then(|c| c.get("direction")).and_then(|d| d.as_str()), Some("down"));
}

#[test]
fn parse_config_explains_a_bad_file() {
    let e = parse_config("animation_time = = 3").unwrap_err();
    assert!(e.starts_with("Failed to read config file: "));
    assert!(e.len() > "Failed to read config file: ".len());
}

#[test]
fn request_of_saturn_writes_given_options() {
    let r = request_of(AnimCommand::<f32>::Saturn { bg_index: Some(12), no_giygas: false, lifetime: Some(2.5) });
    assert_eq!(r.name, "saturn");
    assert_eq!(
        flags(&r.flags),
        pairs(&[("no_giygas", "bool false"), ("bg_index", "int 12"), ("lifetime", "float 2.5")])
    );
    let r = request_of(AnimCommand::<f32>::Saturn { bg_index: None, no_giygas: true, lifetime: None });
    assert_eq!(flags(&r.flags), pairs(&[("no_giygas", "bool true")]));
}

#[test]
fn request_of_each_animation() {
    let r = request_of(AnimCommand::<f32>::Perlin { gradient: Some("fire".to_string()), speed: None });
    assert_eq!((r.name.as_str(), flags(&r.flags)), ("perlin", pairs(&[("gradient", "text fire")])));
    let r = request_of(AnimCommand::<f32>::Cosine { speed: Some(1.5) });
    assert_eq!((r.name.as_str(), flags(&r.flags)), ("cosine", pairs(&[("speed", "float 1.5")])));
    let r = request_of(AnimCommand::<f32>::Slime { gradient: None });
    assert_eq!((r.name.as_str(), flags(&r.flags)), ("slime", vec![]));
    let r = request_of(AnimCommand::<f32>::Maelstrom { wait_time: Some(0.5), speed_min: None, speed_max: Some(3.0) });
    assert_eq!(
        (r.name.as_str(), flags(&r.flags)),
        ("maelstrom", pairs(&[("wait_time", "float 0.5"), ("speed_max", "float 3")]))
    );
    let r = request_of(AnimCommand::<f32>::Conway { stale_ticks: Some(4), tick_rate: Some(20.0) });
    assert_eq!(
        (r.name.as_str(), flags(&r.flags)),
        ("conway", pairs(&[("stale_ticks", "int 4"), ("tick_rate", "float 20")]))
    );
    let r = request_of(AnimCommand::<f32>::Collapse { direction: Some("up".to_string()) });
    assert_eq!((r.name.as_str(), flags(&r.flags)), ("collapse", pairs(&[("direction", "text up")])));
}

#[test]
fn request_edits_only_touch_what_the_configuration_has() {
    let req = || request_of(AnimCommand::<f32>::Collapse { direction: Some("left".to_string()) });
    let e = request_edits(req(), true, true, true);
    assert_eq!(e.enabled, Some(vec!["collapse".to_string()]));
    assert!(e.clear_time_limit);
    assert_eq!(e.section, "collapse");
    assert_eq!(flags(&e.settings), pairs(&[("direction", "text left")]));
    let e = request_edits(req(), false, false, false);
    assert_eq!(e.enabled, None);
    assert!(!e.clear_time_limit);
    assert_eq!(e.section, "collapse");
    assert!(e.settings.is_empty());
}
