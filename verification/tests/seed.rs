use syntect::easy::HighlightLines;
use syntect::highlighting::ThemeSet;
use syntect::parsing::SyntaxSet;
use syntect::util::as_24_bit_terminal_escaped;
use whoa::seed::highlight_sources;

/// The text the sources should give, highlighted with one highlighter.
fn expected(lines_per_source: &[&[&str]]) -> Vec<String> {
    let ss = SyntaxSet::load_defaults_newlines();
    let ts = ThemeSet::load_defaults();
    let theme = &ts.themes["base16-eighties.dark"];
    let mut h = HighlightLines::new(ss.find_syntax_by_extension("rs").unwrap(), theme);
    lines_per_source
        .iter()
        .map(|lines| {
            let mut out = String::new();
            for line in lines.iter() {
                let ranges = h.highlight_line(line, &ss).unwrap();
                out.push_str(&as_24_bit_terminal_escaped(&ranges[..], false));
                out.push('\n');
            }
            out
        })
        .collect()
}

#[test]
fn highlight_sources_widens_tabs_and_splits_lines() {
    let sources = vec![
        "fn main() {\n\tlet x = 1;\r\n}\n".to_string(),
        "// done".to_string(),
        String::new(),
    ];
    let texts = highlight_sources(&sources).unwrap();
    let want = expected(&[&["fn main() {", "    let x = 1;", "}"], &["// done"], &[]]);
    assert_eq!(texts, want);
    assert_eq!(texts[0].matches('\n').count(), 3);
    assert!(texts[2].is_empty());
}

#[test]
fn highlight_sources_keeps_empty_lines_and_stray_carriage_returns() {
    let sources = vec!["a\n\nb\r".to_string()];
    let texts = highlight_sources(&sources).unwrap();
    assert_eq!(texts, expected(&[&["a", "", "b\r"]]));
}

#[test]
fn highlight_sources_colors_the_text() {
    let texts = highlight_sources(&vec!["let x = 1;".to_string()]).unwrap();
    assert!(texts[0].contains("\x1b[38;2;"));
    assert!(texts[0].contains("let"));
    assert!(texts[0].ends_with('\n'));
}
