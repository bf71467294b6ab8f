use gitrust::error::GitError;
use gitrust::index::{parse_index, read_bytes, read_u16, read_u32};

#[test]
fn test_read_u32() {
    let buffer = [0x00, 0x00, 0x00, 0x01, 0x00, 0x00, 0x00, 0x02];
    let mut offset = 0;
    assert_eq!(read_u32(&buffer, &mut offset).unwrap(), 1);
    assert_eq!(read_u32(&buffer, &mut offset).unwrap(), 2);
}

#[test]
fn test_read_u32_out_of_bounds() {
    let buffer = [0x00, 0x00, 0x01];
    let mut offset = 0;
    assert!(read_u32(&buffer, &mut offset).is_err());
}

#[test]
fn test_read_u16() {
    let buffer = [0x00, 0x01, 0x00, 0x02];
    let mut offset = 0;
    assert_eq!(read_u16(&buffer, &mut offset).unwrap(), 1);
    assert_eq!(read_u16(&buffer, &mut offset).unwrap(), 2);
}

#[test]
fn test_read_u16_out_of_bounds() {
    let buffer = [0x01];
    let mut offset = 0;
    assert!(read_u16(&buffer, &mut offset).is_err());
}

#[test]
fn test_read_bytes() {
    let buffer = [0x00, 0x01, 0x02, 0x03, 0x04, 0x05];
    let mut offset = 0;
    assert_eq!(
        read_bytes::<3>(&buffer, &mut offset).unwrap(),
        [0x00, 0x01, 0x02]
    );
    assert_eq!(
        read_bytes::<3>(&buffer, &mut offset).unwrap(),
        [0x03, 0x04, 0x05]
    );
}

#[test]
fn test_read_bytes_out_of_bounds() {
    let buffer = [0x01];
    let mut offset = 0;
    assert!(read_bytes::<2>(&buffer, &mut offset).is_err());
}

#[test]
fn read_u32_is_big_endian_and_keeps_offset_on_failure() {
    let buffer = [0x12, 0x34, 0x56, 0x78, 0x9a];
    let mut offset = 0;
    assert_eq!(read_u32(&buffer, &mut offset), Ok(0x1234_5678));
    assert_eq!(offset, 4);
    assert_eq!(read_u32(&buffer, &mut offset), Err(GitError::Format));
    assert_eq!(offset, 4);
}

fn header(count: u32) -> Vec<u8> {
    let mut b = b"DIRC".to_vec();
    b.extend_from_slice(&2u32.to_be_bytes());
    b.extend_from_slice(&count.to_be_bytes());
    b
}

fn entry_bytes(mode: u32, sha: u8, path: &[u8], padding: usize) -> Vec<u8> {
    let mut b = Vec::new();
    for v in [1u32, 2, 3, 4, 5, 6, mode, 7, 8, 9] {
        b.extend_from_slice(&v.to_be_bytes());
    }
    b.extend_from_slice(&[sha; 20]);
    b.extend_from_slice(&(path.len() as u16).to_be_bytes());
    b.extend_from_slice(path);
    b.extend(std::iter::repeat(0u8).take(padding));
    b
}

#[test]
fn index_shorter_than_header_is_format_error() {
    assert!(matches!(parse_index(b"DIRC\0\0\0\x02\0\0\0"), Err(GitError::Format)));
    assert!(matches!(parse_index(&[]), Err(GitError::Format)));
}

#[test]
fn index_with_wrong_signature_is_format_error() {
    let mut b = header(0);
    b[0] = b'X';
    assert!(matches!(parse_index(&b), Err(GitError::Format)));
}

#[test]
fn index_with_no_entries_decodes_to_empty() {
    let b = header(0);
    assert_eq!(parse_index(&b).unwrap().len(), 0);
}

#[test]
fn index_count_beyond_buffer_is_format_error() {
    let mut b = header(2);
    b.extend(entry_bytes(0o100644, 0xab, b"file.txt", 2));
    assert!(matches!(parse_index(&b), Err(GitError::Format)));
}

#[test]
fn index_path_past_end_is_format_error() {
    let mut b = header(1);
    let mut e = entry_bytes(0o100644, 0xab, b"file.txt", 0);
    e.truncate(e.len() - 3);
    b.extend(e);
    assert!(matches!(parse_index(&b), Err(GitError::Format)));
}

#[test]
fn index_entries_decode_in_order_with_padding() {
    let mut b = header(2);
    // 62 + 8 = 70 bytes: two bytes of padding up to 72.
    b.extend(entry_bytes(0o100644, 0xab, b"file.txt", 2));
    // 62 + 2 = 64 bytes: already a multiple of eight, no padding.
    b.extend(entry_bytes(0o100755, 0xcd, b"ab", 0));
    let entries = parse_index(&b).unwrap();
    assert_eq!(entries.len(), 2);
    assert_eq!(entries[0].ctime, (1, 2));
    assert_eq!(entries[0].mtime, (3, 4));
    assert_eq!(entries[0].dev, 5);
    assert_eq!(entries[0].inode, 6);
    assert_eq!(entries[0].mode, 0o100644);
    assert_eq!(entries[0].uid, 7);
    assert_eq!(entries[0].gid, 8);
    assert_eq!(entries[0].file_size, 9);
    assert_eq!(entries[0].sha1, [0xab; 20]);
    assert_eq!(entries[0].flags, 8);
    assert_eq!(entries[0].path, "file.txt");
    assert_eq!(entries[1].mode, 0o100755);
    assert_eq!(entries[1].sha1, [0xcd; 20]);
    assert_eq!(entries[1].path, "ab");
}

#[test]
fn index_path_is_decoded_lossily() {
    let mut b = header(1);
    b.extend(entry_bytes(0o100644, 0, b"a\xffb", 5));
    let entries = parse_index(&b).unwrap();
    assert_eq!(entries[0].path, "a\u{fffd}b");
}

#[test]
fn index_trailing_bytes_are_ignored() {
    let mut b = header(1);
    b.extend(entry_bytes(0o100644, 1, b"x", 1));
    b.extend_from_slice(b"TREE-extension-and-checksum");
    assert_eq!(parse_index(&b).unwrap().len(), 1);
}

#[test]
fn index_entry_line_uses_octal_mode() {
    let mut b = header(1);
    b.extend(entry_bytes(0o100644, 0xab, b"file.txt", 2));
    let entries = parse_index(&b).unwrap();
    assert_eq!(
        entries[0].render(),
        format!("100644 {} file.txt", "ab".repeat(20))
    );
}
