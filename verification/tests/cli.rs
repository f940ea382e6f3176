use key_art::art::EncodingArt;
use key_art::image::read_image;
use key_art::flags::{AppFlags, EncodingFlags};
use key_art::hexdigits::{parse_hex_input, payload_hex, HexError};
use key_art::reader::{ImageReader, LineOutcome};

#[test]
fn hex_input_from_readme() {
    let bytes = parse_hex_input("24317827454D8A6AF33E526256E3555682464145").unwrap();
    assert_eq!(bytes.len(), 20);
    assert_eq!(bytes[0], 0x24);
    assert_eq!(bytes[3], 0x27);
    assert_eq!(bytes[4], 0x45);
    assert_eq!(bytes[19], 0x45);
    assert_eq!(parse_hex_input("aBcD").unwrap(), vec![0xab, 0xcd]);
    assert_eq!(parse_hex_input("").unwrap(), Vec::<u8>::new());
}

#[test]
fn hex_input_errors() {
    assert_eq!(parse_hex_input("123"), Err(HexError::OddLength));
    assert_eq!(
        parse_hex_input("01g3"),
        Err(HexError::InvalidHexCharacter { c: 'g', index: 2 })
    );
    assert_eq!(
        parse_hex_input("0x"),
        Err(HexError::InvalidHexCharacter { c: 'x', index: 1 })
    );
}

#[test]
fn payload_as_hex_from_readme() {
    let mut raw = vec![13u8];
    raw.extend_from_slice(b"Hello, World!");
    raw.push(0);
    assert_eq!(payload_hex(&raw), "48656c6c6f2c20576f726c6421");
}

#[test]
fn hex_round_trip() {
    let bytes: Vec<u8> = (0..=255u8).collect();
    let mut raw = vec![255u8];
    raw.extend_from_slice(&bytes[..255]);
    let text = payload_hex(&raw);
    assert_eq!(parse_hex_input(&text).unwrap(), bytes[..255].to_vec());
}

#[test]
fn flags_keep_their_values() {
    let app = AppFlags::new(true);
    assert!(app.silent());
    let enc = EncodingFlags::new(app, false);
    assert!(enc.app_flags().silent());
    assert!(!enc.skip_length_check());
    assert!(EncodingFlags::new(AppFlags::new(false), true).skip_length_check());
}

#[test]
fn reader_collects_image_lines() {
    let lines = ["╭────╮\n", "│.-%@│\n", "│=+*#│\n", "╰────╯\n"];
    let mut reader = ImageReader::new();
    assert_eq!(reader.feed(lines[0]), LineOutcome::Continue);
    assert_eq!(reader.expected_rows(), 2);
    assert_eq!(reader.feed(lines[1]), LineOutcome::Continue);
    assert_eq!(reader.feed(lines[2]), LineOutcome::Continue);
    assert_eq!(reader.feed(lines[3]), LineOutcome::Done);
    assert_eq!(reader.lines_read_count(), 4);
    assert_eq!(reader.into_image(), "╭────╮\n│.-%@│\n│=+*#│\n");
}

#[test]
fn reader_rejects_bad_start_and_end() {
    let mut reader = ImageReader::new();
    assert_eq!(reader.feed("hello\n"), LineOutcome::MissingStart);
    let mut reader = ImageReader::new();
    assert_eq!(reader.feed("╭──╮\n"), LineOutcome::Continue);
    assert_eq!(reader.feed("│..│\n"), LineOutcome::Continue);
    assert_eq!(reader.feed("│..│\n"), LineOutcome::MissingEnd);
}

#[test]
fn reader_reads_rendered_image() {
    let mut art = EncodingArt::new(0);
    let mut placed = vec![];
    let mut t = 0usize;
    while art.next_cell(3).is_some() {
        placed.push((t * 5) % 9);
        art.place((t * 5) % 9);
        t += 1;
    }
    let text = art.render_image();
    let mut reader = ImageReader::new();
    let lines: Vec<&str> = text.split('\n').collect();
    assert_eq!(lines.len(), 5);
    for (i, line) in lines.iter().enumerate() {
        let typed = format!("{line}\n");
        let outcome = reader.feed(&typed);
        if i < 4 {
            assert_eq!(outcome, LineOutcome::Continue);
        } else {
            assert_eq!(outcome, LineOutcome::Done);
        }
    }
    let kept = reader.into_image();
    let img = read_image(&kept);
    assert_eq!(img.size(), 3);
    let mut replay = EncodingArt::new(0);
    let mut t = 0usize;
    while let Some(req) = replay.next_cell(3) {
        assert_eq!(img.level(req.x, req.y), placed[t]);
        replay.place(placed[t]);
        t += 1;
    }
}

#[test]
fn reader_cannot_read_an_image_without_rows() {
    let mut reader = ImageReader::new();
    assert_eq!(reader.feed("╭╮\n"), LineOutcome::Continue);
    assert_eq!(reader.expected_rows(), 0);
    assert_eq!(reader.feed("╰╯\n"), LineOutcome::MissingStart);
}

#[test]
fn empty_stream_gives_empty_hex() {
    assert_eq!(payload_hex(&[]), "");
}
