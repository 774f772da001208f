//! One directory level: entry classification and size formatting.

use vstd::prelude::*;
use vstd::string::*;

verus! {

/// One filesystem object together with its display attributes.
///
/// `children` is `None` until an expansion attaches the entry's own
/// directory listing; non-directories never acquire children.
#[verifier::ext_equal]
pub struct File {
    pub name: String,
    pub path: String,
    pub file_type: String,
    pub is_dir: bool,
    pub size: u64,
    pub children: Option<Vec<File>>,
}

/// The raw observation of one directory entry, as the I/O layer read it:
/// a name (possibly still holding path separators), the resolvable path,
/// and the metadata-derived kind and size (defaulting to `false`/`0` when
/// the metadata could not be read).
pub struct RawEntry {
    pub name: String,
    pub path: String,
    pub is_dir: bool,
    pub size: u64,
}

/// The suffix of `s` after the last occurrence of `c`; `s` itself when
/// `c` does not occur.
pub open spec fn after_last(s: Seq<char>, c: char) -> Seq<char>
    decreases s.len(),
{
    if s.len() == 0 {
        s
    } else if s.last() == c {
        Seq::<char>::empty()
    } else {
        after_last(s.drop_last(), c).push(s.last())
    }
}

/// The base name of a raw entry name: what follows the last path separator.
pub open spec fn base_name(s: Seq<char>) -> Seq<char> {
    after_last(s, '/')
}

/// The kind tag derived from a base name: empty for hidden names (leading
/// dot), otherwise the part after the last dot (the whole name when it has
/// no dot).
pub open spec fn kind_tag_spec(name: Seq<char>) -> Seq<char> {
    if name.len() > 0 && name[0] == '.' {
        Seq::<char>::empty()
    } else {
        after_last(name, '.')
    }
}

/// How a classified entry relates to the raw observation it came from.
pub open spec fn raw_matches(f: File, r: RawEntry) -> bool {
    &&& f.name@ == base_name(r.name@)
    &&& f.path@ == r.path@
    &&& f.file_type@ == kind_tag_spec(base_name(r.name@))
    &&& f.is_dir == r.is_dir
    &&& f.size == r.size
    &&& f.children is None
}

/// Whether two entries carry the same observed attributes; their attached
/// children may differ.
pub open spec fn same_meta(a: File, b: File) -> bool {
    &&& a.name@ == b.name@
    &&& a.path@ == b.path@
    &&& a.file_type@ == b.file_type@
    &&& a.is_dir == b.is_dir
    &&& a.size == b.size
}

/// Classification is a pure function of the raw observation: two entries
/// classified from the same observation agree on every attribute, and
/// neither has children attached. Listing a directory level again from
/// the same observations is therefore safe: it reproduces the same
/// entries.
pub proof fn lemma_classification_deterministic(a: File, b: File, r: RawEntry)
    requires
        raw_matches(a, r),
        raw_matches(b, r),
    ensures
        same_meta(a, b),
        a.children is None,
        b.children is None,
{
}

proof fn lemma_after_last_found(s: Seq<char>, c: char, i: int)
    requires
        0 <= i < s.len(),
        s[i] == c,
        forall|j: int| i < j < s.len() ==> s[j] != c,
    ensures
        after_last(s, c) == s.subrange(i + 1, s.len() as int),
    decreases s.len(),
{
    if i == s.len() - 1 {
        assert(after_last(s, c) =~= s.subrange(i + 1, s.len() as int));
    } else {
        assert(s.last() != c);
        lemma_after_last_found(s.drop_last(), c, i);
        assert(after_last(s, c) =~= s.subrange(i + 1, s.len() as int));
    }
}

proof fn lemma_after_last_absent(s: Seq<char>, c: char)
    requires
        forall|j: int| 0 <= j < s.len() ==> s[j] != c,
    ensures
        after_last(s, c) == s,
    decreases s.len(),
{
    if s.len() > 0 {
        lemma_after_last_absent(s.drop_last(), c);
        assert(after_last(s, c) =~= s);
    }
}

/// Index of the last occurrence of `c` in `s`, if any.
fn rfind_char(s: &str, c: char) -> (r: Option<usize>)
    ensures
        match r {
            Some(i) => {
                &&& i < s@.len()
                &&& s@[i as int] == c
                &&& forall|j: int| i < j < s@.len() ==> s@[j] != c
            },
            None => forall|j: int| 0 <= j < s@.len() ==> s@[j] != c,
        },
{
    let n = s.unicode_len();
    let mut i: usize = n;
    while i > 0
        invariant
            i <= n,
            n == s@.len(),
            forall|j: int| i <= j < s@.len() ==> s@[j] != c,
        decreases i,
    {
        i = i - 1;
        if s.get_char(i) == c {
            return Some(i);
        }
    }
    None
}

/// The suffix of `s` after the last occurrence of `c`, as a fresh string;
/// `s` unchanged when `c` does not occur.
fn after_last_exec(s: &str, c: char) -> (r: String)
    ensures
        r@ == after_last(s@, c),
{
    let n = s.unicode_len();
    match rfind_char(s, c) {
        Some(i) => {
            proof {
                lemma_after_last_found(s@, c, i as int);
            }
            s.substring_char(i + 1, n).to_owned()
        },
        None => {
            proof {
                lemma_after_last_absent(s@, c);
            }
            s.to_owned()
        },
    }
}

/// Whether the two string slices hold the same characters.
fn str_eq(a: &str, b: &str) -> (r: bool)
    ensures
        r == (a@ == b@),
{
    let la = a.unicode_len();
    let lb = b.unicode_len();
    if la != lb {
        assert(a@ != b@) by {
            assert(a@.len() != b@.len());
        }
        return false;
    }
    let mut i: usize = 0;
    while i < la
        invariant
            i <= la,
            la == a@.len(),
            la == b@.len(),
            forall|j: int| 0 <= j < i ==> a@[j] == b@[j],
        decreases la - i,
    {
        if a.get_char(i) != b.get_char(i) {
            return false;
        }
        i = i + 1;
    }
    proof {
        assert(a@ =~= b@);
    }
    true
}

/// The glyph that stands for an entry: the directory glyph for directories
/// regardless of name, a dedicated glyph for the literal name `.gitignore`,
/// one glyph per recognized kind tag, and a generic fallback otherwise.
pub open spec fn symbol_spec(f: File) -> Seq<char> {
    if f.is_dir {
        ""@
    } else if f.name@ == ".gitignore"@ {
        ""@
    } else if f.file_type@ == "py"@ {
        ""@
    } else if f.file_type@ == "rs"@ {
        ""@
    } else if f.file_type@ == "toml"@ {
        ""@
    } else if f.file_type@ == "lock"@ {
        "󰌾"@
    } else if f.file_type@ == "go"@ {
        "󰟓"@
    } else if f.file_type@ == "json"@ {
        ""@
    } else {
        ""@
    }
}

/// The displayed size value: sizes over 1024 bytes are shown in truncated
/// kilobytes, smaller ones in bytes.
pub open spec fn size_value_spec(f: File) -> u64 {
    if f.size > 1024 {
        (f.size / 1024) as u64
    } else {
        f.size
    }
}

/// The displayed size unit that goes with `size_value_spec`.
pub open spec fn size_unit_spec(f: File) -> Seq<char> {
    if f.size > 1024 {
        "KB"@
    } else {
        "B"@
    }
}

impl File {
    /// The glyph for this entry, per `symbol_spec`: directories get the
    /// directory glyph unconditionally; `.gitignore` its special glyph;
    /// recognized kind tags their own glyph; everything else the fallback.
    pub fn file_type_symbol(&self) -> (r: &str)
        ensures
            r@ == symbol_spec(*self),
    {
        if self.is_dir {
            return "";
        }

        if str_eq(self.name.as_str(), ".gitignore") {
            return "";
        }

        if str_eq(self.file_type.as_str(), "py") {
            ""
        } else if str_eq(self.file_type.as_str(), "rs") {
            ""
        } else if str_eq(self.file_type.as_str(), "toml") {
            ""
        } else if str_eq(self.file_type.as_str(), "lock") {
            "󰌾"
        } else if str_eq(self.file_type.as_str(), "go") {
            "󰟓"
        } else if str_eq(self.file_type.as_str(), "json") {
            ""
        } else {
            ""
        }
    }

    /// The size of this entry as a value and a unit: `(size, "B")` up to
    /// 1024 bytes, `(size / 1024, "KB")` with truncating division above.
    pub fn size_and_unit(&self) -> (r: (u64, &str))
        ensures
            r.0 == size_value_spec(*self),
            r.1@ == size_unit_spec(*self),
    {
        if self.size > 1024 {
            return (self.size / 1024, "KB");
        }

        (self.size, "B")
    }

    /// Classifies one raw directory entry: splits the base name off the raw
    /// name, derives the kind tag (empty for hidden names), and copies the
    /// metadata observations; no children are attached.
    pub fn from_raw(raw: &RawEntry) -> (f: File)
        ensures
            raw_matches(f, *raw),
    {
        let base = after_last_exec(raw.name.as_str(), '/');
        let hidden = if base.as_str().unicode_len() > 0 {
            base.as_str().get_char(0) == '.'
        } else {
            false
        };
        let tag = if hidden {
            String::new()
        } else {
            after_last_exec(base.as_str(), '.')
        };
        File {
            name: base,
            path: raw.path.clone(),
            file_type: tag,
            is_dir: raw.is_dir,
            size: raw.size,
            children: None,
        }
    }
}

/// The character for one decimal digit.
pub open spec fn digit_char(d: nat) -> char {
    if d == 0 {
        '0'
    } else if d == 1 {
        '1'
    } else if d == 2 {
        '2'
    } else if d == 3 {
        '3'
    } else if d == 4 {
        '4'
    } else if d == 5 {
        '5'
    } else if d == 6 {
        '6'
    } else if d == 7 {
        '7'
    } else if d == 8 {
        '8'
    } else {
        '9'
    }
}

/// The decimal digits of `n`, most significant first, without leading
/// zeros (`0` itself is rendered as one digit).
pub open spec fn dec_str(n: nat) -> Seq<char>
    decreases n,
{
    if n < 10 {
        seq![digit_char(n)]
    } else {
        dec_str(n / 10).push(digit_char(n % 10))
    }
}

fn digit_str(d: u64) -> (r: &'static str)
    requires
        d < 10,
    ensures
        r@ == seq![digit_char(d as nat)],
{
    if d == 0 {
        proof { reveal_strlit("0"); }
        assert("0"@ =~= seq![digit_char(0)]);
        "0"
    } else if d == 1 {
        proof { reveal_strlit("1"); }
        assert("1"@ =~= seq![digit_char(1)]);
        "1"
    } else if d == 2 {
        proof { reveal_strlit("2"); }
        assert("2"@ =~= seq![digit_char(2)]);
        "2"
    } else if d == 3 {
        proof { reveal_strlit("3"); }
        assert("3"@ =~= seq![digit_char(3)]);
        "3"
    } else if d == 4 {
        proof { reveal_strlit("4"); }
        assert("4"@ =~= seq![digit_char(4)]);
        "4"
    } else if d == 5 {
        proof { reveal_strlit("5"); }
        assert("5"@ =~= seq![digit_char(5)]);
        "5"
    } else if d == 6 {
        proof { reveal_strlit("6"); }
        assert("6"@ =~= seq![digit_char(6)]);
        "6"
    } else if d == 7 {
        proof { reveal_strlit("7"); }
        assert("7"@ =~= seq![digit_char(7)]);
        "7"
    } else if d == 8 {
        proof { reveal_strlit("8"); }
        assert("8"@ =~= seq![digit_char(8)]);
        "8"
    } else {
        proof { reveal_strlit("9"); }
        assert("9"@ =~= seq![digit_char(9)]);
        "9"
    }
}

/// Renders `n` in decimal.
fn u64_to_string(n: u64) -> (r: String)
    ensures
        r@ == dec_str(n as nat),
    decreases n,
{
    if n < 10 {
        digit_str(n).to_owned()
    } else {
        let mut s = u64_to_string(n / 10);
        s.append(digit_str(n % 10));
        proof {
            assert(s@ =~= dec_str((n / 10) as nat).push(digit_char((n % 10) as nat)));
        }
        s
    }
}

/// One entry's own output line: glyph, size with unit, and name, separated
/// by tabs.
pub open spec fn line_spec(f: File) -> Seq<char> {
    symbol_spec(f) + "\t"@ + dec_str(size_value_spec(f) as nat) + size_unit_spec(f) + "\t"@
        + f.name@
}

/// The rendered block of one entry at a given indentation: the indent,
/// then the entry's own line; when children were attached, a newline and
/// the children's blocks, every line of them indented one tab deeper,
/// joined with newlines. An entry whose expansion found nothing keeps the
/// trailing newline of the empty child list.
pub open spec fn render_ind(f: File, ind: Seq<char>) -> Seq<char>
    decreases f, 1int,
{
    match f.children {
        Option::None => ind + line_spec(f),
        Option::Some(cs) => ind + line_spec(f) + "\n"@ + render_kids(cs@, ind.push('\t')),
    }
}

/// The rendered blocks of a child list at a given indentation, joined
/// with newlines.
pub open spec fn render_kids(s: Seq<File>, ind: Seq<char>) -> Seq<char>
    decreases s, 0int,
{
    if s.len() == 0 {
        Seq::<char>::empty()
    } else if s.len() == 1 {
        render_ind(s[0], ind)
    } else {
        render_ind(s[0], ind) + "\n"@ + render_kids(s.subrange(1, s.len() as int), ind)
    }
}

/// The text rendering of a whole tree: one line per entry, depth-first
/// and pre-order, each line carrying one leading tab per nesting level.
pub open spec fn render_file(f: File) -> Seq<char> {
    render_ind(f, Seq::<char>::empty())
}

impl File {
    /// The rendered block of this entry's tree at the given indentation,
    /// per `render_ind`.
    fn render_at(&self, ind: &str) -> (r: String)
        ensures
            r@ == render_ind(*self, ind@),
        decreases *self,
    {
        let su: (u64, &str) = self.size_and_unit();
        let mut line = ind.to_owned();
        line.append(self.file_type_symbol());
        line.append("\t");
        let digits = u64_to_string(su.0);
        line.append(digits.as_str());
        line.append(su.1);
        line.append("\t");
        line.append(self.name.as_str());
        proof {
            assert(line@ =~= ind@ + line_spec(*self));
        }
        match &self.children {
            Option::None => line,
            Option::Some(cs) => {
                let mut deeper = ind.to_owned();
                deeper.append("\t");
                proof {
                    reveal_strlit("\t");
                    assert(deeper@ =~= ind@.push('\t'));
                }
                let n: usize = cs.len();
                let mut suffix = String::new();
                let mut i: usize = n;
                while i > 0
                    invariant
                        i <= n,
                        n == cs@.len(),
                        self.children matches Option::Some(v) && v@ == cs@,
                        deeper@ == ind@.push('\t'),
                        suffix@ == render_kids(cs@.subrange(i as int, n as int), deeper@),
                    decreases i,
                {
                    i = i - 1;
                    proof {
                        assert(decreases_to!(*self => self.children));
                        assert(decreases_to!(self.children => self.children->0));
                        assert(decreases_to!(self.children->0 => self.children->0@));
                        assert(decreases_to!(self.children->0@ => self.children->0@[i as int]));
                        assert(cs@[i as int] == self.children->0@[i as int]);
                    }
                    let mut piece = cs[i].render_at(deeper.as_str());
                    if i + 1 < n {
                        piece.append("\n");
                        piece.append(suffix.as_str());
                    }
                    suffix = piece;
                    proof {
                        let t = cs@.subrange(i as int, n as int);
                        assert(t[0] == cs@[i as int]);
                        assert(t.subrange(1, t.len() as int) =~= cs@.subrange(i as int + 1, n as int));
                        assert(suffix@ =~= render_kids(t, deeper@));
                    }
                }
                proof {
                    assert(cs@.subrange(0, n as int) =~= cs@);
                }
                line.append("\n");
                line.append(suffix.as_str());
                proof {
                    assert(line@ =~= ind@ + line_spec(*self) + "\n"@ + render_kids(
                        cs@,
                        ind@.push('\t'),
                    ));
                }
                line
            },
        }
    }

    /// The text rendering of this entry's tree, per `render_file`: one
    /// line per entry, depth-first and pre-order, indented with one
    /// leading tab per nesting level.
    pub fn render(&self) -> (r: String)
        ensures
            r@ == render_file(*self),
    {
        proof {
            reveal_strlit("");
            assert(""@ =~= Seq::<char>::empty());
        }
        self.render_at("")
    }
}

/// Classifies one directory level's raw entries, in the order they were
/// enumerated. This is the computational half of listing a directory; the
/// I/O layer supplies the raw observations and swallows read failures by
/// handing over an empty sequence.
pub fn list_directory(entries: Vec<RawEntry>) -> (files: Vec<File>)
    ensures
        files@.len() == entries@.len(),
        forall|i: int| 0 <= i < entries@.len() ==> raw_matches(#[trigger] files@[i], entries@[i]),
{
    let mut files: Vec<File> = Vec::new();
    let mut i: usize = 0;
    while i < entries.len()
        invariant
            i <= entries@.len(),
            files@.len() == i,
            forall|j: int| 0 <= j < i ==> raw_matches(#[trigger] files@[j], entries@[j]),
        decreases entries@.len() - i,
    {
        files.push(File::from_raw(&entries[i]));
        i = i + 1;
    }
    files
}

} // verus!
