use dumpx::config::Config;
use dumpx::dump::Dumper;
use dumpx::render::render;

fn cfg(width: usize, group: usize) -> Config {
    Config::new(width, group, b'.').expect("valid configuration")
}

fn dump_in_blocks(data: &[u8], block: usize, c: Config) -> Vec<u8> {
    let mut dumper = Dumper::new(c);
    let mut out = Vec::new();
    for piece in data.chunks(block.max(1)) {
        out.extend(dumper.feed(piece));
    }
    out.extend(dumper.finish());
    out
}

#[test]
fn streaming_matches_whole_buffer_rendering() {
    let data: Vec<u8> = (0u8..=200).collect();
    let c = cfg(16, 4);
    let whole = render(&data, 0, &c);
    for block in [1usize, 3, 7, 16, 64, 300] {
        assert_eq!(dump_in_blocks(&data, block, c), whole, "block {}", block);
    }
}

#[test]
fn incomplete_row_is_held_back_until_finish() {
    let mut dumper = Dumper::new(cfg(4, 4));
    let first = dumper.feed(&[0x41, 0x42, 0x43]);
    assert!(first.is_empty());
    let second = dumper.feed(&[0x44, 0x45]);
    assert_eq!(
        String::from_utf8(second).unwrap(),
        "0x00000000: 41 42 43 44  ABCD\n"
    );
    let tail = dumper.finish();
    let expected = format!("0x00000004: 45{}  E\n", " ".repeat(9));
    assert_eq!(String::from_utf8(tail).unwrap(), expected);
}

#[test]
fn empty_dump_emits_nothing() {
    let mut dumper = Dumper::new(cfg(16, 4));
    let fed = dumper.feed(&[]);
    let tail = dumper.finish();
    assert!(fed.is_empty());
    assert!(tail.is_empty());
}

#[test]
fn block_boundaries_do_not_shift_offsets() {
    let data = vec![0u8; 40];
    let c = cfg(16, 4);
    let out = String::from_utf8(dump_in_blocks(&data, 10, c)).unwrap();
    let starts: Vec<String> = out.lines().map(|l| l[..12].to_string()).collect();
    assert_eq!(
        starts,
        vec![
            "0x00000000: ".to_string(),
            "0x00000010: ".to_string(),
            "0x00000020: ".to_string()
        ]
    );
}
