use nanogallery::config::{parse_hex_exec, Config};

fn chars(s: &str) -> Vec<char> {
    s.chars().collect()
}

#[test]
fn default_settings() {
    let c = Config::default();
    assert_eq!(c.libraries, vec!["Pictures".to_string()]);
    assert_eq!(c.background_color, 0xFF1A_1A1A);
    assert_eq!(c.text_color, 0xFFEE_EEEE);
    assert_eq!(c.primary_color, 0xFFEE_EEEE);
    assert_eq!(c.secondary_color, 0xFF4B_4B4B);
    assert!(!c.pico);
}

#[test]
fn to_text_writes_every_key() {
    let c = Config::default();
    assert_eq!(
        c.to_text(),
        "library;Pictures\nbackground_color;#FF1A1A1A\ntext_color;#FFEEEEEE\n\
         primary_color;#FFEEEEEE\nsecondary_color;#FF4B4B4B\n"
    );
    let mut c = Config::default();
    c.libraries.clear();
    c.background_color = 0;
    c.text_color = 0xAB;
    c.pico = true;
    assert_eq!(
        c.to_text(),
        "background_color;#0\ntext_color;#AB\nprimary_color;#FFEEEEEE\n\
         secondary_color;#FF4B4B4B\npico;\n"
    );
}

#[test]
fn save_then_load_round_trip() {
    let mut c = Config::default();
    c.libraries = vec!["Pictures/holiday".to_string(), "/mnt/photos;old".to_string()];
    c.background_color = 0xFF00_0000;
    c.text_color = 0x0012_3456;
    c.primary_color = 0xFFFF_FFFF;
    c.secondary_color = 0x7;
    c.pico = true;
    let text = c.to_text();
    let mut back = Config::default();
    back.load_str(&text);
    assert_eq!(back.libraries, c.libraries);
    assert_eq!(back.background_color, c.background_color);
    assert_eq!(back.text_color, c.text_color);
    assert_eq!(back.primary_color, c.primary_color);
    assert_eq!(back.secondary_color, c.secondary_color);
    assert_eq!(back.pico, c.pico);
}

#[test]
fn load_reads_keys_and_skips_malformed_lines() {
    let mut c = Config::default();
    c.load_str(
        "library;A\r\nno separator\nunknown;1\nbackground_color;#zz\ntext_color;#ff00ff\n\
         primary_color;\nsecondary_color;#1FFFFFFFF\npico;whatever\nlibrary;B",
    );
    assert_eq!(c.libraries, vec!["A".to_string(), "B".to_string()]);
    assert_eq!(c.background_color, 0xFF1A_1A1A);
    assert_eq!(c.text_color, 0x00FF_00FF);
    assert_eq!(c.primary_color, 0xFFEE_EEEE);
    assert_eq!(c.secondary_color, 0xFF4B_4B4B);
    assert!(c.pico);
}

#[test]
fn load_of_empty_text_clears_libraries_only() {
    let mut c = Config::default();
    c.load_str("");
    assert!(c.libraries.is_empty());
    assert_eq!(c.background_color, 0xFF1A_1A1A);
}

#[test]
fn hex_values() {
    assert_eq!(parse_hex_exec(&chars("FF1a1A1a")), Some(0xFF1A_1A1A));
    assert_eq!(parse_hex_exec(&chars("10")), Some(16));
    assert_eq!(parse_hex_exec(&chars("+10")), None);
    assert_eq!(parse_hex_exec(&chars("-1")), None);
    assert_eq!(parse_hex_exec(&chars("")), None);
    assert_eq!(parse_hex_exec(&chars("+")), None);
    assert_eq!(parse_hex_exec(&chars("12g")), None);
    assert_eq!(parse_hex_exec(&chars("FFFFFFFF")), Some(u32::MAX));
    assert_eq!(parse_hex_exec(&chars("100000000")), None);
    assert_eq!(parse_hex_exec(&chars("0000000000000001")), Some(1));
}

#[test]
fn colour_needs_hash_and_digits() {
    let mut c = Config::default();
    c.load_str("background_color;xFF\ntext_color;#+FF\nprimary_color;#\nsecondary_color;FF0000FF");
    assert_eq!(c.background_color, 0xFF1A_1A1A);
    assert_eq!(c.text_color, 0xFFEE_EEEE);
    assert_eq!(c.primary_color, 0xFFEE_EEEE);
    assert_eq!(c.secondary_color, 0xFF4B_4B4B);
    c.load_str("background_color;#00ff00\ntext_color;#80FFFFFF");
    assert_eq!(c.background_color, 0x0000_FF00);
    assert_eq!(c.text_color, 0x80FF_FFFF);
}
