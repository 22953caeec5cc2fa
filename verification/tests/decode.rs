use crossgrid::import_puz::{import_puzzle, read_header, DecodeError};

/// Builds a puzzle stream: a 52-byte header with the given dimensions and
/// clue count, the two grids row-major, then NUL-terminated strings.
fn puz_bytes(width: u8, height: u8, solution: &[&str], player: &[&str], strings: &[&str]) -> Vec<u8> {
    let mut b = vec![0u8; 52];
    b[0] = 0x11;
    b[1] = 0x22;
    let magic = b"ACROSS&DOWN\0";
    b[2..14].copy_from_slice(magic);
    b[14] = 0x33;
    b[15] = 0x44;
    b[16..20].copy_from_slice(&[1, 2, 3, 4]);
    b[20..24].copy_from_slice(&[5, 6, 7, 8]);
    b[24..28].copy_from_slice(b"1.4\0");
    b[30] = 0x55;
    b[31] = 0x66;
    b[44] = width;
    b[45] = height;
    let n_clues = (strings.len() as u16).saturating_sub(4);
    b[46] = (n_clues & 0xff) as u8;
    b[47] = (n_clues >> 8) as u8;
    b[48] = 0x01;
    b[50] = 0x02;
    for row in solution {
        b.extend(row.bytes());
    }
    for row in player {
        b.extend(row.bytes());
    }
    for s in strings {
        b.extend(s.bytes());
        b.push(0);
    }
    b
}

#[test]
fn header_fields_decoded() {
    let b = puz_bytes(
        3,
        3,
        &["AB.", "C.D", ".EF"],
        &["---", "---", "---"],
        &["Title", "Author", "Copy", "clue one", "clue two", "Notes"],
    );
    let h = read_header(&b).unwrap();
    assert_eq!(h.cksum, 0x2211);
    assert_eq!(h.file_magic, "ACROSS&DOWN\0");
    assert_eq!(h.cib_cksum, 0x4433);
    assert_eq!(h.masked_low_cksums, [1, 2, 3, 4]);
    assert_eq!(h.masked_high_cksums, [5, 6, 7, 8]);
    assert_eq!(h.ver_str, "1.4\0");
    assert_eq!(h.scrambled_cksum, 0x6655);
    assert_eq!(h.width, 3);
    assert_eq!(h.height, 3);
    assert_eq!(h.num_clues, 2);
    assert_eq!(h.unk_bitmask, 0x01);
    assert_eq!(h.scrambled_tag, 0x02);
}

#[test]
fn decode_small_puzzle() {
    let b = puz_bytes(
        3,
        2,
        &["ABC", "DEF"],
        &["___", "___"],
        &["T", "A", "C", "one across", "one down", "two down", "three down", "N"],
    );
    let doc = import_puzzle(&b).unwrap();
    assert_eq!(doc.width(), 3);
    assert_eq!(doc.height(), 2);
    assert_eq!(doc.solution_at(0, 0), 'A');
    assert_eq!(doc.solution_at(1, 2), 'F');
    assert_eq!(doc.clues().len(), 4);
    assert_eq!(doc.clues()[0], "one across");
    assert_eq!(doc.strings.title, "T");
    assert_eq!(doc.strings.author, "A");
    assert_eq!(doc.strings.copyright, "C");
    assert_eq!(doc.strings.notes, "N");
}

#[test]
fn round_trip_clue_counts() {
    // A fully open 3x2 grid has five clue slots: number 1 starts both an
    // across and a down word, numbers 2 and 3 start down words, number 4
    // starts an across word. Five clue texts match them.
    let b = puz_bytes(
        3,
        2,
        &["ABC", "DEF"],
        &["___", "___"],
        &["T", "A", "C", "c1", "c2", "c3", "c4", "c5", "N"],
    );
    let doc = import_puzzle(&b).unwrap();
    assert_eq!(doc.clues().len(), 5);
    assert_eq!(doc.pos_2_clue_idx.0.len(), 5);
}

#[test]
fn truncated_header_rejected() {
    let b = vec![0u8; 51];
    assert_eq!(read_header(&b).unwrap_err(), DecodeError::Truncated);
    assert_eq!(import_puzzle(&b).unwrap_err(), DecodeError::Truncated);
}

#[test]
fn truncated_grid_rejected() {
    let mut b = puz_bytes(3, 2, &["ABC", "DEF"], &["___", "___"], &["T", "A", "C", "N"]);
    b.truncate(52 + 5);
    assert_eq!(import_puzzle(&b).unwrap_err(), DecodeError::Truncated);
}

#[test]
fn strings_one_short_rejected() {
    // Five strings for clue_count 2 (needs 2 + 4 = 6): truncated, and no
    // partial document comes back.
    let mut b = puz_bytes(
        3,
        2,
        &["ABC", "DEF"],
        &["___", "___"],
        &["T", "A", "C", "c1", "c2", "N"],
    );
    // Rewrite the clue count to 2 but drop the final string ("N" and its NUL).
    let cut = b.len() - 2;
    b.truncate(cut);
    let r = import_puzzle(&b);
    assert_eq!(r.unwrap_err(), DecodeError::Truncated);
}

#[test]
fn unterminated_last_string_rejected() {
    let mut b = puz_bytes(
        3,
        2,
        &["ABC", "DEF"],
        &["___", "___"],
        &["T", "A", "C", "c1", "c2", "c3", "c4", "Notes"],
    );
    // Drop the final NUL: the last of the clue_count + 4 strings has no
    // terminator before the stream ends.
    b.pop();
    assert_eq!(import_puzzle(&b).unwrap_err(), DecodeError::Truncated);
}

#[test]
fn zero_width_rejected() {
    let b = puz_bytes(0, 3, &[], &[], &["T", "A", "C", "N"]);
    assert_eq!(import_puzzle(&b).unwrap_err(), DecodeError::Degenerate);
}

#[test]
fn zero_height_rejected() {
    let b = puz_bytes(3, 0, &[], &[], &["T", "A", "C", "N"]);
    assert_eq!(import_puzzle(&b).unwrap_err(), DecodeError::Degenerate);
}

#[test]
fn all_black_grid_rejected() {
    let b = puz_bytes(2, 2, &["..", ".."], &["..", ".."], &["T", "A", "C", "N"]);
    assert_eq!(import_puzzle(&b).unwrap_err(), DecodeError::Degenerate);
}

#[test]
fn player_state_grid_is_read() {
    let b = puz_bytes(
        2,
        1,
        &["AB"],
        &["X_"],
        &["T", "A", "C", "c1", "N"],
    );
    let doc = import_puzzle(&b).unwrap();
    assert_eq!(doc.player_state.data[0][0], 'X');
    assert_eq!(doc.player_state.data[0][1], '_');
}

#[test]
fn latin1_to_str_decodes_bytes() {
    let bytes: Vec<u8> = vec![72, 105, 33, 0xe9];
    let s = crossgrid::import_puz::latin1_to_str(&bytes, 0, 4);
    assert_eq!(s, "Hi!\u{e9}");
    let empty = crossgrid::import_puz::latin1_to_str(&bytes, 2, 2);
    assert_eq!(empty, "");
}
