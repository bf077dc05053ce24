use hpk::{
    compress, create, decode_payload, decompress, extract_action, filedate_value, get_compression,
    parse_filedates, strip_first_component, walk, CompressOptions, Compression, CompressionHeader,
    CreateOptions, Decoder, DirEntry, Encoder, EntryType, ExtractAction, FileDateFormat, Header,
    HpkError, Lz4Block, SourceEntry, Zlib,
};

fn u32_at(b: &[u8], pos: usize) -> u32 {
    u32::from_le_bytes([b[pos], b[pos + 1], b[pos + 2], b[pos + 3]])
}

fn file(path: &str, depth: usize, contents: &[u8]) -> SourceEntry {
    SourceEntry {
        name: path.rsplit('/').next().unwrap().as_bytes().to_vec(),
        path: path.as_bytes().to_vec(),
        depth,
        is_dir: false,
        contents: contents.to_vec(),
        filedate: 0,
    }
}

fn dir(path: &str, depth: usize) -> SourceEntry {
    SourceEntry {
        name: path.rsplit('/').next().unwrap().as_bytes().to_vec(),
        path: path.as_bytes().to_vec(),
        depth,
        is_dir: true,
        contents: Vec::new(),
        filedate: 0,
    }
}

/// The tree of the tiny scenario, in sorted post-order with the root last.
fn tiny_tree() -> Vec<SourceEntry> {
    vec![
        file("empty_file", 1, b""),
        dir("empty_folder", 1),
        file("folder/six", 2, b"ABCDEF"),
        dir("folder", 1),
        file("two_bytes", 1, b"AB"),
        dir("", 0),
    ]
}

/// Every entry of an archive: path, whether it is a directory, and the
/// bytes a file extracts to.
fn contents(archive: Vec<u8>, fix_lua: bool) -> (bool, Vec<(String, bool, Vec<u8>)>) {
    let mut it = walk(archive).unwrap();
    let compressed = it.is_compressed();
    let mut out = vec![];
    while let Some(entry) = it.next() {
        let entry = entry.unwrap();
        let path = String::from_utf8(entry.path().to_vec()).unwrap();
        if entry.is_dir() {
            out.push((path, true, vec![]));
        } else {
            let data = it.extract_file(&entry, fix_lua).unwrap();
            out.push((path, false, data));
        }
    }
    (compressed, out)
}

#[test]
fn compress_zlib() {
    let input = "Hello World".as_bytes();
    let mut buf = vec![];
    let mut output = vec![];
    Zlib::encode_chunk(input, &mut buf);
    Zlib::decode_chunk(&buf, &mut output).unwrap();
    assert_eq!(input, &output[..]);
    assert_ne!(buf, input);
}

#[test]
fn lz4_block() {
    let input = "Hello World".as_bytes();
    let mut buf = vec![];
    let mut output = vec![];
    Lz4Block::encode_chunk(input, &mut buf);
    Lz4Block::decode_chunk(&buf, &mut output).unwrap();
    assert_eq!(input, &output[..]);
    assert_ne!(buf, input);
}

#[test]
fn header_round_trip() {
    let h = Header::new(1000, 24);
    let mut bytes = vec![];
    h.write(&mut bytes);
    assert_eq!(bytes.len(), 36);
    assert_eq!(bytes[0..8], [0x42, 0x50, 0x55, 0x4C, 0x24, 0x00, 0x00, 0x00]);
    let r = Header::read_from(&bytes).unwrap();
    assert_eq!(r.data_offset, 36);
    assert_eq!(r.fragments_per_file, 1);
    assert_eq!(r.reserved_a, 0xFFFF_FFFF);
    assert_eq!(r.reserved_b, 1);
    assert_eq!(r.fragmented_filesystem_offset, 1000);
    assert_eq!(r.fragmented_filesystem_length, 24);
    assert_eq!(r.filesystem_entries(), 3);
}

#[test]
fn header_errors() {
    assert!(matches!(Header::read_from(b"BPU"), Err(HpkError::UnexpectedEof)));
    assert!(matches!(Header::read_from(b"XPUL and more"), Err(HpkError::InvalidHeader)));
    assert!(matches!(Header::read_from(b"BPUL too short"), Err(HpkError::UnexpectedEof)));
}

#[test]
fn dir_entry_round_trip() {
    let e = DirEntry::new_dir(b"a/b/name".to_vec(), 5, 3);
    let mut bytes = vec![];
    e.write(&mut bytes).unwrap();
    assert_eq!(bytes.len(), 10 + 4);
    assert_eq!(u32_at(&bytes, 0), 5);
    assert_eq!(u32_at(&bytes, 4), 1);
    let (read, next) = DirEntry::read_from(b"x", 2, &bytes, 0).unwrap();
    assert_eq!(next, 14);
    assert_eq!(read.path(), b"x/name");
    assert_eq!(read.index(), 4);
    assert_eq!(read.depth(), 2);
    assert!(read.is_dir());
    let (root_child, _) = DirEntry::read_from(b"", 1, &bytes, 0).unwrap();
    assert_eq!(root_child.path(), b"name");
}

#[test]
fn dir_entry_errors() {
    let mut zero = vec![0, 0, 0, 0, 0, 0, 0, 0, 1, 0, b'a'];
    assert!(matches!(DirEntry::read_from(b"", 1, &zero, 0), Err(HpkError::InvalidFragmentIndex)));
    zero[0] = 1;
    zero[10] = 0xFF;
    assert!(matches!(DirEntry::read_from(b"", 1, &zero, 0), Err(HpkError::InvalidDirEntryName)));
    assert!(matches!(DirEntry::read_from(b"", 1, &zero[..9], 0), Err(HpkError::UnexpectedEof)));
    assert_eq!(EntryType::from_value(3), EntryType::Dir);
    assert_eq!(EntryType::from_value(2), EntryType::File);
}

#[test]
fn compressed_lst_with_defaults() {
    let options = CompressOptions::default();
    let out = compress(&options, b"Hello World, Hello World").unwrap();
    assert_eq!(&out[0..4], b"ZLIB");
    assert_eq!(u32_at(&out, 4), 24);
    assert_eq!(u32_at(&out, 8), 32768);
    assert_eq!(u32_at(&out, 12), 16);
    let hdr = CompressionHeader::read_from(out.len() as u64, &out).unwrap();
    assert_eq!(hdr.compressor, Compression::Zlib);
    assert_eq!(hdr.inflated_length, 24);
    assert_eq!(hdr.chunk_size, 32768);
    assert_eq!(hdr.chunks.len(), 1);
    assert_eq!(hdr.chunks[0].offset, 16);
    assert_eq!(hdr.chunks[0].length, out.len() as u64 - 16);
    assert_eq!(decompress(&out).unwrap(), b"Hello World, Hello World");
}

#[test]
fn empty_input_has_no_offsets() {
    for compressor in [Compression::Zlib, Compression::Lz4] {
        let options = CompressOptions { chunk_size: 32768, compressor };
        let out = compress(&options, b"").unwrap();
        assert_eq!(out.len(), 12);
        assert_eq!(u32_at(&out, 4), 0);
        let hdr = CompressionHeader::read_from(out.len() as u64, &out).unwrap();
        assert_eq!(hdr.chunks.len(), 0);
        assert_eq!(decode_payload(&out).unwrap(), b"");
    }
}

#[test]
fn several_chunks() {
    let data: Vec<u8> = (0..10u8).collect();
    let options = CompressOptions { chunk_size: 4, compressor: Compression::Lz4 };
    let out = compress(&options, &data).unwrap();
    assert_eq!(&out[0..4], b"LZ4 ");
    let hdr = CompressionHeader::read_from(out.len() as u64, &out).unwrap();
    assert_eq!(hdr.chunks.len(), 3);
    assert_eq!(hdr.chunks[0].offset - 16, 4 * (3 - 1));
    assert_eq!(hdr.chunks[0].offset, 24);
    let total: u64 = hdr.chunks.iter().map(|c| c.length).sum();
    assert_eq!(total + 24, out.len() as u64);
    assert_eq!(decompress(&out).unwrap(), data);
}

#[test]
fn chunks_that_do_not_decode_are_kept() {
    let mut payload = b"LZ4 ".to_vec();
    payload.extend_from_slice(&5u32.to_le_bytes());
    payload.extend_from_slice(&32768u32.to_le_bytes());
    payload.extend_from_slice(&16u32.to_le_bytes());
    payload.extend_from_slice(&[0xF0, 1, 2, 3, 4]);
    let out = decompress(&payload).unwrap();
    assert_eq!(out.len(), 5);
}

#[test]
fn bad_compression_headers() {
    assert!(matches!(CompressionHeader::read_from(8, b"ZLIB1234"), Err(HpkError::UnexpectedEof)));
    let mut low = b"ZLIB".to_vec();
    low.extend_from_slice(&[0; 8]);
    low.extend_from_slice(&8u32.to_le_bytes());
    assert!(matches!(CompressionHeader::read_from(16, &low), Err(HpkError::UnexpectedEof)));
    let mut past = b"ZLIB".to_vec();
    past.extend_from_slice(&[0; 8]);
    past.extend_from_slice(&100u32.to_le_bytes());
    assert!(matches!(CompressionHeader::read_from(16, &past), Err(HpkError::UnexpectedEof)));
}

#[test]
fn codec_tags() {
    assert_eq!(get_compression(b"ZLIB...."), Compression::Zlib);
    assert_eq!(get_compression(b"LZ4 ...."), Compression::Lz4);
    assert_eq!(get_compression(b"ZSTD...."), Compression::Zstd);
    assert_eq!(get_compression(b"BPUL...."), Compression::Stored);
    assert_eq!(get_compression(b"ZLI"), Compression::Stored);
    assert!(!Compression::Stored.is_compressed());
    assert!(Compression::Zstd.is_compressed());
    assert_eq!(Compression::Lz4.name(), "LZ4");
    assert_eq!(decode_payload(b"plain").unwrap(), b"plain");
}

#[test]
fn tiny_create_and_extract() {
    let options = CreateOptions::default();
    let archive = create(&options, &tiny_tree()).unwrap();
    assert_eq!(
        archive[0..28],
        [
            0x42, 0x50, 0x55, 0x4C, 0x24, 0x00, 0x00, 0x00, 0x01, 0x00, 0x00, 0x00, 0xFF, 0xFF, 0xFF,
            0xFF, 0x00, 0x00, 0x00, 0x00, 0x00, 0x00, 0x00, 0x00, 0x01, 0x00, 0x00, 0x00
        ]
    );
    assert_eq!(u32_at(&archive, 32), 48);
    assert_eq!(u32_at(&archive, 28) as usize + 48, archive.len());
    let header = Header::read_from(&archive).unwrap();
    assert_eq!(header.data_offset, 36);
    assert_eq!(header.filesystem_entries(), 6);

    let (compressed, entries) = contents(archive, false);
    assert!(!compressed);
    let expected = vec![
        (String::new(), true, vec![]),
        ("empty_file".to_string(), false, vec![]),
        ("empty_folder".to_string(), true, vec![]),
        ("folder".to_string(), true, vec![]),
        ("folder/six".to_string(), false, b"ABCDEF".to_vec()),
        ("two_bytes".to_string(), false, b"AB".to_vec()),
    ];
    assert_eq!(entries, expected);
}

#[test]
fn compressed_files_in_archive() {
    let tree = vec![
        file("compressed.lst", 1, b"Hello World, Hello World"),
        file("empty_compressed.lst", 1, b""),
        file("plain.txt", 1, b"Hello World, Hello World"),
        dir("", 0),
    ];
    let archive = create(&CreateOptions::default(), &tree).unwrap();
    let (_, entries) = contents(archive, false);
    assert_eq!(entries[1].2, b"Hello World, Hello World");
    assert_eq!(entries[2].2, b"");
    assert_eq!(entries[3].2, b"Hello World, Hello World");
}

#[test]
fn outer_lz4_wrap() {
    let archive = create(&CreateOptions::default(), &tiny_tree()).unwrap();
    let options = CompressOptions { chunk_size: 32768, compressor: Compression::Lz4 };
    let wrapped = compress(&options, &archive).unwrap();
    let (compressed, entries) = contents(wrapped, false);
    assert!(compressed);
    let (_, plain) = contents(archive, false);
    assert_eq!(entries, plain);
}

#[test]
fn create_with_outer_compression() {
    let mut options = CreateOptions::new();
    options.compress();
    options.use_lz4();
    options.with_chunk_size(64);
    let archive = create(&options, &tiny_tree()).unwrap();
    assert_eq!(&archive[0..4], b"LZ4 ");
    let (compressed, entries) = contents(archive, false);
    assert!(compressed);
    assert_eq!(entries.len(), 6);
    assert_eq!(entries[4].2, b"ABCDEF");
}

#[test]
fn lua_files_crippled_and_fixed() {
    let mut script = hpk::valid_header(hpk::Bits::Int64);
    script.extend_from_slice(&[0xCA, 0xFE, 0xCA, 0xFE]);
    let tree = vec![file("script.lua", 1, &script), dir("", 0)];
    let mut options = CreateOptions::new();
    options.cripple_lua_files();
    let archive = create(&options, &tree).unwrap();
    let (_, stored) = contents(archive.clone(), false);
    assert_eq!(stored[1].2.len(), 35);
    let (_, fixed) = contents(archive, true);
    assert_eq!(fixed[1].2, script);
}

#[test]
fn no_extensions_compress_nothing() {
    let mut options = CreateOptions::new();
    options.with_extensions(vec![]);
    let tree = vec![file("data.lst", 1, b"Hello World, Hello World"), dir("", 0)];
    let archive = create(&options, &tree).unwrap();
    let needle = b"Hello World, Hello World";
    assert!(archive.windows(needle.len()).any(|w| w == needle));
}

#[test]
fn filedates_short_format() {
    let secs: i64 = 1_300_000_000;
    let ticks = (secs + 11_644_473_600) * 10_000_000;
    assert_eq!(filedate_value(secs, FileDateFormat::Default), Ok(ticks));
    assert_eq!(filedate_value(secs, FileDateFormat::Short), Ok(ticks / 2000));
    assert_eq!(filedate_value(i64::MAX, FileDateFormat::Default), Err(HpkError::TooLarge));

    let mut entry = file("a/b.txt", 2, b"x");
    entry.filedate = ticks / 2000;
    let mut folder = dir("a", 1);
    folder.filedate = ticks / 2000;
    let tree = vec![entry, folder, dir("", 0)];
    let mut options = CreateOptions::new();
    options.with_short_filedates_format();
    let archive = create(&options, &tree).unwrap();
    let header = Header::read_from(&archive).unwrap();
    assert_eq!(header.filesystem_entries(), 4);
    let (_, entries) = contents(archive, false);
    let dates = entries.iter().find(|e| e.0 == "_filedates").unwrap();
    let text = String::from_utf8(dates.2.clone()).unwrap();
    assert_eq!(text, format!("a/b.txt={}\na={}\n", ticks / 2000, ticks / 2000));

    let records = parse_filedates(text.as_bytes());
    assert_eq!(records.len(), 2);
    assert_eq!(records[0].path, b"a/b.txt");
    assert_eq!(records[0].unix_secs, secs);
}

#[test]
fn filedates_lines() {
    let text = b"x/y=130000000000000000\r\nno value\nbad=12a\nz=-5\n\nw=7";
    let records = parse_filedates(text);
    assert_eq!(records.len(), 3);
    assert_eq!(records[0].path, b"x/y");
    assert_eq!(records[0].unix_secs, 130000000000000000 / 10_000_000 - 11_644_473_600);
    assert_eq!(records[1].path, b"z");
    assert_eq!(records[1].unix_secs, -10000 / 10_000_000 - 11_644_473_600);
    assert_eq!(records[2].unix_secs, 14000 / 10_000_000 - 11_644_473_600);
    assert_eq!(strip_first_component(b"game/data/file.txt"), b"data/file.txt");
    assert_eq!(strip_first_component(b"file.txt"), b"");
}

#[test]
fn extract_actions() {
    let dates = DirEntry::new_file(b"_filedates".to_vec(), 3, 1);
    assert_eq!(extract_action(false, false, &dates), ExtractAction::Filedates);
    assert_eq!(extract_action(true, false, &dates), ExtractAction::Copy);
    let script = DirEntry::new_file(b"dir/Script.LUA".to_vec(), 3, 2);
    assert_eq!(extract_action(false, true, &script), ExtractAction::FixLua);
    assert_eq!(extract_action(false, false, &script), ExtractAction::Copy);
    let folder = DirEntry::new_dir(b"dir".to_vec(), 2, 1);
    assert_eq!(extract_action(false, true, &folder), ExtractAction::MakeDir);
}

#[test]
fn walk_rejects_bad_archives() {
    assert!(matches!(walk(b"NOPE and some more bytes to fill a header".to_vec()), Err(HpkError::InvalidHeader)));
    let mut archive = create(&CreateOptions::default(), &tiny_tree()).unwrap();
    let len = archive.len();
    archive.truncate(len - 4);
    assert!(matches!(walk(archive), Err(HpkError::UnexpectedEof)));
}

#[test]
fn entries_out_of_the_table_are_refused() {
    let mut archive = create(&CreateOptions::default(), &tiny_tree()).unwrap();
    // the root's listing starts with the entry of `empty_file`; point it past the table
    let header = Header::read_from(&archive).unwrap();
    let table = header.fragmented_filesystem_offset as usize;
    let root_offset = u32_at(&archive, table) as usize;
    archive[root_offset..root_offset + 4].copy_from_slice(&99u32.to_le_bytes());
    let mut it = walk(archive).unwrap();
    assert!(it.next().unwrap().is_err());
}

#[test]
fn dir_entry_file_name() {
    let e = DirEntry::new_file(b"a/b/c.txt".to_vec(), 1, 3);
    assert_eq!(e.file_name(), b"c.txt");
    assert_eq!(DirEntry::new_root().file_name(), b"");
    assert_eq!(e.index(), 1);
    assert_eq!(e.depth(), 3);
    assert!(!e.is_dir());
}

#[test]
fn compression_header_write() {
    let options = CompressOptions { chunk_size: 100, compressor: Compression::Lz4 };
    let mut out = vec![];
    let size = CompressionHeader::write(&options, 250, &[0, 40, 90], &mut out);
    assert_eq!(size, 24);
    assert_eq!(out.len(), 24);
    assert_eq!(&out[0..4], b"LZ4 ");
    assert_eq!(u32_at(&out, 4), 250);
    assert_eq!(u32_at(&out, 8), 100);
    assert_eq!(u32_at(&out, 12), 24);
    assert_eq!(u32_at(&out, 16), 64);
    assert_eq!(u32_at(&out, 20), 114);
}

#[test]
fn zero_fragments_per_row_is_refused() {
    let mut header = Header::new(36, 0);
    header.fragments_per_file = 0;
    let mut bytes = vec![];
    header.write(&mut bytes);
    assert!(matches!(walk(bytes), Err(HpkError::InvalidHeader)));
}

#[test]
fn root_file_is_refused() {
    let tree = vec![file("lonely", 0, b"x")];
    assert!(matches!(create(&CreateOptions::default(), &tree), Err(HpkError::InvalidInput)));
}

#[test]
fn compression_zlib() {
    let input = "Hello World".as_bytes();
    let mut buf = vec![];
    let mut output = vec![];
    Zlib::encode_chunk(input, &mut buf);
    Zlib::decode_chunk(&buf, &mut output).unwrap();
    assert_eq!(input, &output[..]);
}

#[test]
fn trees_out_of_post_order_are_refused() {
    // a directory before its contents
    let tree = vec![dir("folder", 1), file("folder/six", 2, b"ABCDEF"), dir("", 0)];
    assert!(matches!(create(&CreateOptions::default(), &tree), Err(HpkError::InvalidInput)));
    // no root at the end
    let tree = vec![file("a", 1, b"x")];
    assert!(matches!(create(&CreateOptions::default(), &tree), Err(HpkError::InvalidInput)));
    assert!(matches!(create(&CreateOptions::default(), &[]), Err(HpkError::InvalidInput)));
    // a name too long to store
    let long = "n".repeat(70000);
    let tree = vec![file(&long, 1, b"x"), dir("", 0)];
    assert!(matches!(create(&CreateOptions::default(), &tree), Err(HpkError::InvalidDirEntryName)));
}

#[test]
fn root_listing_holds_children_in_order() {
    let archive = create(&CreateOptions::default(), &tiny_tree()).unwrap();
    let table = u32_at(&archive, 28) as usize;
    let root_offset = u32_at(&archive, table) as usize;
    let root_len = u32_at(&archive, table + 4) as usize;
    let listing = &archive[root_offset..root_offset + root_len];
    // empty_file (row 1), empty_folder (row 2), folder (row 4), two_bytes (row 5)
    let mut pos = 0;
    let mut seen = vec![];
    while pos < listing.len() {
        let index = u32_at(listing, pos);
        let kind = u32_at(listing, pos + 4);
        let len = u16::from_le_bytes([listing[pos + 8], listing[pos + 9]]) as usize;
        let name = String::from_utf8(listing[pos + 10..pos + 10 + len].to_vec()).unwrap();
        seen.push((index, kind, name));
        pos += 10 + len;
    }
    assert_eq!(
        seen,
        vec![
            (2, 0, "empty_file".to_string()),
            (3, 1, "empty_folder".to_string()),
            (5, 1, "folder".to_string()),
            (6, 0, "two_bytes".to_string()),
        ]
    );
}

#[test]
fn dir_entry_write_refuses_bad_names() {
    let mut out = vec![];
    assert!(matches!(DirEntry::new_file(b"".to_vec(), 1, 1).write(&mut out), Err(HpkError::InvalidDirEntryName)));
    assert!(matches!(DirEntry::new_file(b"a/".to_vec(), 1, 1).write(&mut out), Err(HpkError::InvalidDirEntryName)));
    assert!(matches!(DirEntry::new_dir(b"a/..".to_vec(), 1, 1).write(&mut out), Err(HpkError::InvalidDirEntryName)));
    assert!(matches!(DirEntry::new_file(vec![b'a', b'/', 0xFF], 1, 1).write(&mut out), Err(HpkError::InvalidDirEntryName)));
    assert!(out.is_empty());
}

#[test]
fn default_extensions() {
    let options = CreateOptions::new();
    assert_eq!(options.extensions, vec!["lst", "lua", "xml", "tga", "dds", "xtex", "bin", "csv"]);
}

#[test]
fn walk_ends_after_every_entry() {
    let mut it = walk(create(&CreateOptions::default(), &tiny_tree()).unwrap()).unwrap();
    let mut count = 0;
    while let Some(entry) = it.next() {
        entry.unwrap();
        count += 1;
    }
    assert_eq!(count, 6);
    assert!(it.next().is_none());
}
