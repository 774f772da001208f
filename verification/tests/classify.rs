use ox_system::files::File;
use ox_system::files::RawEntry;
use ox_system::files::list_directory;

const DIR_GLYPH: &str = "\u{f07c}";
const GITIGNORE_GLYPH: &str = "\u{e702}";
const PY_GLYPH: &str = "\u{e73c}";
const RS_GLYPH: &str = "\u{e7a8}";
const TOML_GLYPH: &str = "\u{e6b2}";
const LOCK_GLYPH: &str = "\u{f033e}";
const GO_GLYPH: &str = "\u{f07d3}";
const JSON_GLYPH: &str = "\u{eb0f}";
const FALLBACK_GLYPH: &str = "\u{f15c}";

fn raw(name: &str, path: &str, is_dir: bool, size: u64) -> RawEntry {
    RawEntry { name: name.to_string(), path: path.to_string(), is_dir, size }
}

fn file(name: &str, is_dir: bool, size: u64) -> File {
    File::from_raw(&raw(name, name, is_dir, size))
}

#[test]
fn size_and_unit_thresholds() {
    let f = file("a", false, 2048);
    let (v, u) = f.size_and_unit();
    assert_eq!((v, u), (2, "KB"));

    let f = file("a", false, 1025);
    let (v, u) = f.size_and_unit();
    assert_eq!((v, u), (1, "KB"));

    let f = file("a", false, 1024);
    let (v, u) = f.size_and_unit();
    assert_eq!((v, u), (1024, "B"));

    let f = file("a", false, 0);
    let (v, u) = f.size_and_unit();
    assert_eq!((v, u), (0, "B"));
}

#[test]
fn kind_tag_hidden_names() {
    assert_eq!(file(".gitignore", false, 0).file_type, "");
    assert_eq!(file(".env.local", false, 0).file_type, "");
}

#[test]
fn kind_tag_extensions() {
    assert_eq!(file("main.rs", false, 0).file_type, "rs");
    assert_eq!(file("Cargo.toml", false, 0).file_type, "toml");
    assert_eq!(file("archive.tar.gz", false, 0).file_type, "gz");
    assert_eq!(file("Makefile", false, 0).file_type, "Makefile");
}

#[test]
fn name_keeps_only_last_segment() {
    let f = File::from_raw(&raw("src/lib.rs", "./src/lib.rs", false, 7));
    assert_eq!(f.name, "lib.rs");
    assert_eq!(f.file_type, "rs");
    assert_eq!(f.path, "./src/lib.rs");
    assert_eq!(f.size, 7);
    assert!(!f.is_dir);
}

#[test]
fn glyph_for_directory_ignores_name() {
    assert_eq!(file("main.rs", true, 0).file_type_symbol(), DIR_GLYPH);
    assert_eq!(file(".gitignore", true, 0).file_type_symbol(), DIR_GLYPH);
    assert_eq!(file("plain", true, 0).file_type_symbol(), DIR_GLYPH);
}

#[test]
fn glyph_special_gitignore() {
    assert_eq!(file(".gitignore", false, 0).file_type_symbol(), GITIGNORE_GLYPH);
}

#[test]
fn glyph_known_tags() {
    assert_eq!(file("a.py", false, 0).file_type_symbol(), PY_GLYPH);
    assert_eq!(file("a.rs", false, 0).file_type_symbol(), RS_GLYPH);
    assert_eq!(file("a.toml", false, 0).file_type_symbol(), TOML_GLYPH);
    assert_eq!(file("a.lock", false, 0).file_type_symbol(), LOCK_GLYPH);
    assert_eq!(file("a.go", false, 0).file_type_symbol(), GO_GLYPH);
    assert_eq!(file("a.json", false, 0).file_type_symbol(), JSON_GLYPH);

    let glyphs = [
        DIR_GLYPH,
        GITIGNORE_GLYPH,
        PY_GLYPH,
        RS_GLYPH,
        TOML_GLYPH,
        LOCK_GLYPH,
        GO_GLYPH,
        JSON_GLYPH,
        FALLBACK_GLYPH,
    ];
    for a in 0..glyphs.len() {
        for b in 0..glyphs.len() {
            if a != b {
                assert_ne!(glyphs[a], glyphs[b]);
            }
        }
    }
}

#[test]
fn glyph_fallback() {
    assert_eq!(file("notes.txt", false, 0).file_type_symbol(), FALLBACK_GLYPH);
    assert_eq!(file(".env.local", false, 0).file_type_symbol(), FALLBACK_GLYPH);
    assert_eq!(file("Makefile", false, 0).file_type_symbol(), FALLBACK_GLYPH);
}

#[test]
fn list_directory_matches_entries() {
    let files = list_directory(vec![
        raw("a.rs", "./a.rs", false, 10),
        raw("sub", "./sub", true, 0),
        raw(".gitignore", "./.gitignore", false, 5),
    ]);
    assert_eq!(files.len(), 3);
    assert_eq!(files[0].name, "a.rs");
    assert_eq!(files[0].file_type, "rs");
    assert_eq!(files[0].size, 10);
    assert!(!files[0].is_dir);
    assert!(files[0].children.is_none());
    assert_eq!(files[1].name, "sub");
    assert!(files[1].is_dir);
    assert!(files[1].children.is_none());
    assert_eq!(files[2].name, ".gitignore");
    assert_eq!(files[2].file_type, "");
    assert!(files[2].children.is_none());
}

#[test]
fn list_directory_empty() {
    let files = list_directory(Vec::new());
    assert!(files.is_empty());
}
