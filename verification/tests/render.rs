use ox_system::files::File;
use ox_system::files::RawEntry;

const DIR_GLYPH: &str = "\u{f07c}";
const PY_GLYPH: &str = "\u{e73c}";
const RS_GLYPH: &str = "\u{e7a8}";
const FALLBACK_GLYPH: &str = "\u{f15c}";

fn raw(name: &str, path: &str, is_dir: bool, size: u64) -> RawEntry {
    RawEntry { name: name.to_string(), path: path.to_string(), is_dir, size }
}

fn file(name: &str, is_dir: bool, size: u64) -> File {
    File::from_raw(&raw(name, name, is_dir, size))
}

#[test]
fn render_single_line() {
    let f = file("main.rs", false, 100);
    assert_eq!(f.render(), format!("{RS_GLYPH}\t100B\tmain.rs"));
}

#[test]
fn render_kilobyte_line() {
    let f = file("big.rs", false, 2048);
    assert_eq!(f.render(), format!("{RS_GLYPH}\t2KB\tbig.rs"));
}

#[test]
fn render_empty_children_keeps_trailing_newline() {
    let mut d = file("empty", true, 0);
    d.children = Some(Vec::new());
    assert_eq!(d.render(), format!("{DIR_GLYPH}\t0B\tempty\n"));
}

#[test]
fn render_directory_tree() {
    let mut a = file("a", true, 0);
    let c = file("c.py", false, 10);
    a.children = Some(vec![c]);
    let b = file("b.txt", false, 5);
    let mut root = file("root", true, 0);
    root.children = Some(vec![a, b]);

    let expected = format!(
        "{DIR_GLYPH}\t0B\troot\n\t{DIR_GLYPH}\t0B\ta\n\t\t{PY_GLYPH}\t10B\tc.py\n\t{FALLBACK_GLYPH}\t5B\tb.txt"
    );
    assert_eq!(root.render(), expected);
}

#[test]
fn render_indents_one_tab_per_level() {
    let mut c = file("c", true, 0);
    c.children = Some(vec![file("d.rs", false, 1)]);
    let mut b = file("b", true, 0);
    b.children = Some(vec![c]);
    let mut a = file("a", true, 0);
    a.children = Some(vec![b]);

    let expected = format!(
        "{DIR_GLYPH}\t0B\ta\n\t{DIR_GLYPH}\t0B\tb\n\t\t{DIR_GLYPH}\t0B\tc\n\t\t\t{RS_GLYPH}\t1B\td.rs"
    );
    assert_eq!(a.render(), expected);
}

#[test]
fn render_unexpanded_directory_is_one_line() {
    let d = file("src", true, 4096);
    assert_eq!(d.render(), format!("{DIR_GLYPH}\t4KB\tsrc"));
}
