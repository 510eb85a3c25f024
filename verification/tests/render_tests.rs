use dumpx::config::Config;
use dumpx::render::render;

fn text(out: Vec<u8>) -> String {
    String::from_utf8(out).expect("rendered lines are ASCII")
}

fn cfg(width: usize, group: usize, replacement: u8) -> Config {
    Config::new(width, group, replacement).expect("valid configuration")
}

#[test]
fn one_line_width_four() {
    let out = render(&[0x41, 0x42, 0x0a, 0xff], 0, &cfg(4, 4, b'.'));
    assert_eq!(text(out), "0x00000000: 41 42 0a ff  AB..\n");
}

#[test]
fn five_bytes_make_two_lines_with_padded_hex() {
    let out = render(&[0x01, 0x02, 0x03, 0x04, 0x05], 0, &cfg(4, 4, b'.'));
    let expected = format!(
        "0x00000000: 01 02 03 04  ....\n0x00000004: 05{}  .\n",
        " ".repeat(9)
    );
    assert_eq!(text(out), expected);
}

#[test]
fn hex_sections_have_equal_width_on_short_last_line() {
    let lines = text(render(&[0x41; 7], 0, &cfg(4, 4, b'.')));
    let mut widths = Vec::new();
    for line in lines.lines() {
        // Offset prefix is 12 characters; the ASCII section holds only
        // printable 'A's here, so the hex section ends where the two-space
        // gutter before the last run of 'A's begins.
        let rest = &line[12..];
        let ascii_len = rest.chars().rev().take_while(|c| *c == 'A').count();
        widths.push(rest.len() - 2 - ascii_len);
    }
    assert_eq!(widths, vec![11, 11]);
}

#[test]
fn group_boundary_gets_double_space() {
    let out = render(
        &[0x00, 0x01, 0x02, 0x03, 0x04, 0x05, 0x06, 0x07],
        0,
        &cfg(8, 4, b'.'),
    );
    assert_eq!(
        text(out),
        "0x00000000: 00 01 02 03  04 05 06 07  ........\n"
    );
}

#[test]
fn grouping_disabled_uses_single_spaces_only() {
    let out = render(&[0x41, 0x42, 0x43, 0x44], 0, &cfg(4, 0, b'.'));
    assert_eq!(text(out), "0x00000000: 41 42 43 44  ABCD\n");
}

#[test]
fn empty_input_renders_no_lines() {
    let out = render(&[], 0, &cfg(16, 4, b'.'));
    assert!(out.is_empty());
}

#[test]
fn line_count_is_length_rounded_up_by_width() {
    for len in 0..40usize {
        let data = vec![0u8; len];
        let out = text(render(&data, 0, &cfg(16, 4, b'.')));
        let lines = out.lines().count();
        assert_eq!(lines, (len + 15) / 16, "length {}", len);
    }
}

#[test]
fn offsets_advance_by_width() {
    let out = text(render(&[0u8; 33], 0, &cfg(16, 4, b'.')));
    let starts: Vec<String> = out.lines().map(|l| l[..12].to_string()).collect();
    assert_eq!(
        starts,
        vec![
            "0x00000000: ".to_string(),
            "0x00000010: ".to_string(),
            "0x00000020: ".to_string()
        ]
    );
}

#[test]
fn offset_prefix_wraps_past_32_bits() {
    let out = render(&[0x20], 0x1_0000_0002, &cfg(4, 0, b'.'));
    let expected = format!("0x00000002: 20{}   \n", " ".repeat(9));
    assert_eq!(text(out), expected);
}

#[test]
fn printable_bounds_pass_through_and_others_are_replaced() {
    let out = render(&[0x1f, 0x20, 0x7e, 0x7f], 0, &cfg(4, 4, b'#'));
    assert_eq!(text(out), "0x00000000: 1f 20 7e 7f  # ~#\n");
}

#[test]
fn replacement_byte_is_configurable() {
    let out = render(&[0x00, 0x41], 0, &cfg(2, 0, b'?'));
    assert_eq!(text(out), "0x00000000: 00 41  ?A\n");
}

#[test]
fn rendering_is_deterministic() {
    let data: Vec<u8> = (0..=255u8).collect();
    let c = cfg(16, 4, b'.');
    let first = render(&data, 0, &c);
    let second = render(&data, 0, &c);
    assert_eq!(first, second);
}

#[test]
fn default_geometry_matches_sixteen_wide_grouped_by_four() {
    let c = Config::default();
    assert_eq!(c.hex_region_width(), 16 * 2 + 15 + (16 / 4 - 1));
    let out = text(render(&[0xab; 16], 0, &c));
    assert_eq!(
        out,
        "0x00000000: ab ab ab ab  ab ab ab ab  ab ab ab ab  ab ab ab ab  ................\n"
    );
}
