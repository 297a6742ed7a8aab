use bdsh::colors::ColorScheme;

#[test]
fn test_ansi_colors_enabled() {
    let scheme = ColorScheme::new(true);
    assert_eq!(scheme.ansi_yellow("test"), "\x1b[33mtest\x1b[0m");
    assert_eq!(scheme.ansi_green("test"), "\x1b[32mtest\x1b[0m");
}

#[test]
fn test_ansi_colors_disabled() {
    let scheme = ColorScheme::new(false);
    assert_eq!(scheme.ansi_yellow("test"), "test");
    assert_eq!(scheme.ansi_green("test"), "test");
}

#[test]
fn test_ansi_red_cyan_gray() {
    let scheme = ColorScheme::new(true);
    assert_eq!(scheme.ansi_red("x"), "\x1b[31mx\x1b[0m");
    assert_eq!(scheme.ansi_cyan("x"), "\x1b[36mx\x1b[0m");
    assert_eq!(scheme.ansi_gray("x"), "\x1b[90mx\x1b[0m");
}

#[test]
fn test_ansi_format_custom_code() {
    let scheme = ColorScheme::new(true);
    assert_eq!(scheme.ansi_format("hi", "1;4"), "\x1b[1;4mhi\x1b[0m");
}
