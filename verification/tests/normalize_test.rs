use bdsh::normalize::{clean_terminal_output, cr_process, strip_ansi_and_control};

#[test]
fn carriage_return_partial_overwrite() {
    assert_eq!(clean_terminal_output("hello\rhi"), "hillo");
}

#[test]
fn carriage_return_full_overwrite() {
    assert_eq!(clean_terminal_output("hello\rworld"), "world");
}

#[test]
fn carriage_return_repeated() {
    assert_eq!(clean_terminal_output("a\rb\rc"), "c");
    assert_eq!(clean_terminal_output("loading...\rdone      "), "done      ");
}

#[test]
fn cr_within_each_line() {
    assert_eq!(clean_terminal_output("one\rtwo\nxx\ry"), "two\nyx");
}

#[test]
fn strips_csi_sequences() {
    assert_eq!(strip_ansi_and_control("\x1b[31mred\x1b[0m"), "red");
    assert_eq!(clean_terminal_output("\x1b[1;32mok\x1b[0m done"), "ok done");
}

#[test]
fn strips_osc_and_dcs_sequences() {
    assert_eq!(strip_ansi_and_control("\x1b]0;title\x07text"), "text");
    assert_eq!(strip_ansi_and_control("\x1bPdata\x1b\\after"), "after");
}

#[test]
fn truncated_escape_consumed_to_end() {
    assert_eq!(strip_ansi_and_control("abc\x1b[12"), "abc");
    assert_eq!(strip_ansi_and_control("abc\x1b"), "abc");
}

#[test]
fn bare_osc_fallback_skips_to_space() {
    assert_eq!(strip_ansi_and_control("]0;junk more"), " more");
}

#[test]
fn control_bytes_dropped_tab_kept() {
    assert_eq!(strip_ansi_and_control("a\x01b\tc"), "ab\tc");
}

#[test]
fn normalize_idempotent_on_typical_output() {
    let samples = [
        "plain text\nsecond line",
        "\x1b[31mred\x1b[0m and\tmore\nprogress\rdone",
        "spinner: |\r/\r-\r\\\rdone\ntail",
        "",
        "one\n",
    ];
    for s in samples.iter() {
        let once = clean_terminal_output(s);
        let twice = clean_terminal_output(&once);
        assert_eq!(twice, once);
    }
}

#[test]
fn cr_process_keeps_untouched_tail() {
    assert_eq!(cr_process("abcdef\rXY"), "XYcdef");
    assert_eq!(cr_process("nocr"), "nocr");
}

#[test]
fn trailing_newline_dropped() {
    assert_eq!(clean_terminal_output("same\n"), "same");
}
