use rawgrep::binary_ext::{
    build_keys16, build_keys8, build_long, const_pack128, const_pack64, count_long, count_mid, count_short,
    is_binary_ext, is_reserved_tool_dir, pack16, pack8, LookupTable,
};

const BINARY_EXTS: &[&str] = &[
    "png", "jpg", "jpeg", "gif", "bmp", "ico", "webp", "tiff", "tif", "heic", "heif", "avif", "psd", "xcf",
    "raw", "cr2", "nef", "orf", "sr2", "dng", "mp3", "wav", "flac", "ogg", "oga", "m4a", "aac", "wma", "opus",
    "aiff", "mid", "midi", "amr", "mp4", "mkv", "avi", "mov", "webm", "flv", "wmv", "m4v", "mpg", "mpeg", "3gp",
    "mts", "zip", "tar", "gz", "tgz", "bz2", "tbz2", "7z", "rar", "xz", "zst", "lz4", "lzma", "z", "cab", "br",
    "exe", "dll", "so", "a", "o", "obj", "lib", "class", "pyc", "pyo", "pyd", "wasm", "bin", "dylib", "msi",
    "deb", "rpm", "apk", "elf", "com", "pdf", "doc", "docx", "xls", "xlsx", "ppt", "pptx", "odt", "ods", "odp",
    "rtf", "ttf", "otf", "woff", "woff2", "eot", "db", "sqlite", "sqlite3", "mdb", "accdb", "dat", "parquet",
    "avro", "orc", "iso", "dmg", "img", "jar", "war", "ear", "pak", "vhd", "vmdk", "qcow2", "appimage", "flatpak",
];

const TOOL_DIRS: &[&str] = &[
    ".git", ".hg", ".svn", ".jj", ".bzr", "_darcs", "CVS", "RCS", "SCCS", "node_modules", "__pycache__",
    ".mypy_cache", ".pytest_cache", ".tox", ".nox", ".venv", "venv", "env", ".env", ".eggs",
    ".ipynb_checkpoints", "vendor", "Pods", ".dart_tool", ".pub-cache", ".cargo", ".rustup", "target", ".gradle",
    ".m2", ".ivy2", ".bundle", ".stack-work", "_build", "deps", ".yarn", ".pnpm-store", ".npm", ".cabal-sandbox",
    "dist-newstyle", "build", "dist", "out", "bin", "obj", ".next", ".nuxt", ".output", ".svelte-kit",
    ".angular", ".parcel-cache", ".turbo", ".cache", ".webpack", ".idea", ".vscode", ".vs", ".fleet",
    ".settings", ".terraform", ".serverless", ".aws-sam", ".nyc_output", "coverage", ".sass-cache",
    "$RECYCLE.BIN", "System Volume Information",
];

#[test]
fn pack8_matches_reference_for_all_lengths_1_to_8() {
    let data: [u8; 8] = [0x11, 0x22, 0x33, 0x44, 0x55, 0x66, 0x77, 0x88];
    for len in 1..=8usize {
        let got = pack8(&data[..len]);
        let want = const_pack64(&data[..len]);
        assert_eq!(got, want, "pack8 mismatch at len={}", len);
    }
}

#[test]
fn pack16_matches_reference_for_all_lengths_9_to_16() {
    let data: [u8; 16] = [
        0x01, 0x02, 0x03, 0x04, 0x05, 0x06, 0x07, 0x08, 0x09, 0x0a, 0x0b, 0x0c, 0x0d, 0x0e, 0x0f, 0x10,
    ];
    for len in 9..=16usize {
        let got = pack16(&data[..len]);
        let want = const_pack128(&data[..len]);
        assert_eq!(got, want, "pack16 mismatch at len={}", len);
    }
}

#[test]
fn packing_is_little_endian() {
    assert_eq!(const_pack64(b"ab"), 0x6261);
    assert_eq!(pack8(&[0x01, 0x02, 0x03]), 0x030201);
    assert_eq!(pack16(&[0xFF; 16]), u128::MAX);
    assert_eq!(const_pack64(b""), 0);
}

#[test]
fn is_binary_ext_every_listed_string_matches() {
    for s in BINARY_EXTS {
        assert!(is_binary_ext(s.as_bytes()), "is_binary_ext({:?}) returned false, expected true", s);
    }
}

#[test]
fn is_reserved_tool_dir_every_listed_string_matches() {
    for s in TOOL_DIRS {
        assert!(is_reserved_tool_dir(s.as_bytes()), "is_reserved_tool_dir({:?}) returned false, expected true", s);
    }
}

#[test]
fn empty_input_does_not_match() {
    assert!(!is_binary_ext(b""));
    assert!(!is_reserved_tool_dir(b""));
}

#[test]
fn unrelated_input_does_not_match() {
    for junk in [".definitely_not_in_the_table", "xyzzy", "q", "aaaaaaaaaaaaaaaaaaaaaaaaaaaaaaaa"] {
        assert!(!BINARY_EXTS.contains(&junk));
        assert!(!TOOL_DIRS.contains(&junk));
        assert!(!is_binary_ext(junk.as_bytes()));
        assert!(!is_reserved_tool_dir(junk.as_bytes()));
    }
    assert!(!is_binary_ext(b"PNG"));
    assert!(!is_reserved_tool_dir(b"System Volume Informatio"));
}

#[test]
fn keys_of_the_tables_are_distinct() {
    for list in [BINARY_EXTS, TOOL_DIRS] {
        let k8 = build_keys8(list);
        assert!(k8.windows(2).all(|w| w[0] < w[1]), "duplicate entry in lookup table");
        let k16 = build_keys16(list);
        assert!(k16.windows(2).all(|w| w[0] < w[1]), "duplicate entry in lookup table");
        assert_eq!(k8.len(), count_short(list));
        assert_eq!(k16.len(), count_mid(list));
        assert_eq!(build_long(list).len(), count_long(list));
    }
    assert_eq!(count_short(BINARY_EXTS) + count_mid(BINARY_EXTS) + count_long(BINARY_EXTS), BINARY_EXTS.len());
    assert_eq!(build_long(TOOL_DIRS), vec![".ipynb_checkpoints", "System Volume Information"]);
}

#[test]
fn trailing_nul_bytes_pack_like_the_name() {
    // A key is the name as a little-endian integer, so trailing NUL bytes vanish.
    assert!(is_binary_ext(b"png\0"));
    assert!(!is_binary_ext(b"\0png"));
}

#[test]
fn custom_table_with_duplicates() {
    let names = ["aa", "bb", "aa", "a-name-longer-than-sixteen", "nine-byte"];
    let t = LookupTable::new(&names);
    for n in names {
        assert!(t.contains(n.as_bytes()));
    }
    assert!(!t.contains(b"ab"));
    assert!(!t.contains(b"a-name-longer-than-sixteeN"));
}
