//! The desired-state document: what the engine is asked to make true, and
//! the format names under which such documents are stored.

use vstd::prelude::*;
use vstd::string::*;

verus! {

/// A storage format for the desired-state document.
#[derive(Clone, Copy, Debug, PartialEq, Eq, Structural)]
pub enum ConfigFormat {
    JSON,
    YAML,
    TOML,
}

/// The code of `c` with an ASCII capital folded to its small letter.
pub open spec fn lower_code(c: char) -> u32 {
    if 'A' <= c && c <= 'Z' {
        (c as u32 + 32) as u32
    } else {
        c as u32
    }
}

/// `s` spells `w` up to ASCII case: same length, and each character of `s`
/// folds to the character of `w`.
pub open spec fn matches_word(s: Seq<char>, w: Seq<char>) -> bool {
    s.len() == w.len() && forall|i: int| 0 <= i < s.len() ==> lower_code(s[i]) == #[trigger] w[i] as u32
}

/// The format a name denotes, compared without regard to ASCII case.
pub open spec fn spec_format_of(s: Seq<char>) -> Option<ConfigFormat> {
    if matches_word(s, "json"@) {
        Some(ConfigFormat::JSON)
    } else if matches_word(s, "yaml"@) || matches_word(s, "yml"@) {
        Some(ConfigFormat::YAML)
    } else if matches_word(s, "toml"@) {
        Some(ConfigFormat::TOML)
    } else {
        None
    }
}

/// Whether `s` spells `w` up to ASCII case.
pub fn eq_word_lower(s: &str, w: &str) -> (r: bool)
    ensures
        r == matches_word(s@, w@),
{
    let n = s.unicode_len();
    if n != w.unicode_len() {
        return false;
    }
    let mut i: usize = 0;
    while i < n
        invariant
            n == s@.len(),
            n == w@.len(),
            0 <= i <= n,
            forall|j: int| 0 <= j < i ==> lower_code(s@[j]) == #[trigger] w@[j] as u32,
        decreases n - i,
    {
        let c = s.get_char(i) as u32;
        let lc = if c >= 65 && c <= 90 {
            c + 32
        } else {
            c
        };
        proof {
            assert(lc == lower_code(s@[i as int]));
        }
        if lc != w.get_char(i) as u32 {
            return false;
        }
        i += 1;
    }
    true
}

/// The largest index below `i` where `c` occurs in `s`, or `-1` when there
/// is none.
pub open spec fn last_index_of(s: Seq<char>, c: char, i: int) -> int
    decreases i,
{
    if i <= 0 {
        -1
    } else if s[i - 1] == c {
        i - 1
    } else {
        last_index_of(s, c, i - 1)
    }
}

/// The last occurrence of `c` in `s`, if any.
fn rfind_char(s: &str, c: char) -> (r: Option<usize>)
    ensures
        r matches Some(i) ==> i < s@.len() && last_index_of(s@, c, s@.len() as int) == i,
        r is None ==> last_index_of(s@, c, s@.len() as int) == -1,
{
    let n = s.unicode_len();
    let mut i: usize = n;
    while i > 0
        invariant
            n == s@.len(),
            0 <= i <= n,
            last_index_of(s@, c, n as int) == last_index_of(s@, c, i as int),
        decreases i,
    {
        if s.get_char(i - 1) == c {
            return Some(i - 1);
        }
        i -= 1;
    }
    None
}

/// The extension of the path's file name: what follows the last dot, none
/// when the name has no dot or begins with its only dot.
pub open spec fn spec_extension(p: Seq<char>) -> Option<Seq<char>> {
    let fstart = last_index_of(p, '/', p.len() as int) + 1;
    let fname = p.skip(fstart);
    let dot = last_index_of(fname, '.', fname.len() as int);
    if dot <= 0 {
        None
    } else {
        Some(fname.skip(dot + 1))
    }
}

impl ConfigFormat {
    /// The format a name denotes, compared without regard to ASCII case:
    /// `yml` counts as the same format as `yaml`.
    pub fn from_str(s: &str) -> (r: Option<ConfigFormat>)
        ensures
            r == spec_format_of(s@),
    {
        if eq_word_lower(s, "json") {
            Some(ConfigFormat::JSON)
        } else if eq_word_lower(s, "yaml") || eq_word_lower(s, "yml") {
            Some(ConfigFormat::YAML)
        } else if eq_word_lower(s, "toml") {
            Some(ConfigFormat::TOML)
        } else {
            None
        }
    }

    /// The format a path's extension denotes, if the path has an extension
    /// naming one.
    pub fn from_path(path: &str) -> (r: Option<ConfigFormat>)
        ensures
            r == (match spec_extension(path@) {
                Some(e) => spec_format_of(e),
                None => None,
            }),
    {
        let n = path.unicode_len();
        let fstart = match rfind_char(path, '/') {
            Some(i) => i + 1,
            None => 0,
        };
        let fname = path.substring_char(fstart, n);
        proof {
            assert(fname@ =~= path@.skip(fstart as int));
        }
        let fn_len = fname.unicode_len();
        match rfind_char(fname, '.') {
            None => None,
            Some(d) => {
                if d == 0 {
                    None
                } else {
                    let ext = fname.substring_char(d + 1, fn_len);
                    proof {
                        assert(ext@ =~= fname@.skip(d + 1 as int));
                    }
                    ConfigFormat::from_str(ext)
                }
            },
        }
    }
}

/// A named archive format, part of the document schema.
#[derive(Clone, Copy, Debug, PartialEq, Eq, Structural)]
pub enum ArchiveFormat {
    Zip,
    Rar,
    Tar,
    TarGz,
    TarBz2,
}

/// An archive declaration: a format and a name. The engine does not act on
/// archives; the field is carried for the document schema.
#[derive(Clone, Debug)]
pub struct Archive {
    format: ArchiveFormat,
    name: String,
}

/// The mathematical value of an [`Archive`].
pub struct ArchiveV {
    pub format: ArchiveFormat,
    pub name: Seq<char>,
}

impl View for Archive {
    type V = ArchiveV;

    closed spec fn view(&self) -> ArchiveV {
        ArchiveV { format: self.format, name: self.name@ }
    }
}

impl Archive {
    /// An archive declaration with the given format and name.
    pub fn new(format: ArchiveFormat, name: String) -> (a: Archive)
        ensures
            a@.format == format,
            a@.name == name@,
    {
        Archive { format, name }
    }

    /// The declared format.
    pub fn format(&self) -> (f: ArchiveFormat)
        ensures
            f == self@.format,
    {
        self.format
    }

    /// The declared name.
    pub fn name(&self) -> (n: &String)
        ensures
            n@ == self@.name,
    {
        &self.name
    }
}

/// The desired-state document: directories and empty files to ensure,
/// links and copies to place, and commands to run, in that order. The
/// `links` pairs map a target path to the link path to create; the `copy`
/// pairs map a source path to its destination.
#[derive(Debug)]
pub struct Config {
    pub commands: Vec<Vec<String>>,
    pub directories: Vec<String>,
    pub files: Vec<String>,
    pub links: Vec<(String, String)>,
    pub copy: Vec<(String, String)>,
    pub archives: Vec<(String, Archive)>,
}

/// The mathematical value of a [`Config`]: each path a sequence of
/// characters.
pub struct ConfigV {
    pub commands: Seq<Seq<Seq<char>>>,
    pub directories: Seq<Seq<char>>,
    pub files: Seq<Seq<char>>,
    pub links: Seq<(Seq<char>, Seq<char>)>,
    pub copy: Seq<(Seq<char>, Seq<char>)>,
    pub archives: Seq<(Seq<char>, ArchiveV)>,
}

impl View for Config {
    type V = ConfigV;

    open spec fn view(&self) -> ConfigV {
        ConfigV {
            commands: self.commands.deep_view(),
            directories: self.directories.deep_view(),
            files: self.files.deep_view(),
            links: self.links.deep_view(),
            copy: self.copy.deep_view(),
            archives: Seq::new(self.archives@.len(), |i: int| (self.archives@[i].0@, self.archives@[i].1@)),
        }
    }
}

/// The value of a freshly generated document: no declarations except a
/// single empty command.
pub open spec fn initial_config_v() -> ConfigV {
    ConfigV {
        commands: seq![Seq::<Seq<char>>::empty()],
        directories: Seq::empty(),
        files: Seq::empty(),
        links: Seq::empty(),
        copy: Seq::empty(),
        archives: Seq::empty(),
    }
}

impl Config {
    /// An empty document: no declarations except a single empty command,
    /// which a run reports as failed for want of an executable.
    pub fn new() -> (c: Config)
        ensures
            c@ == initial_config_v(),
    {
        let mut commands: Vec<Vec<String>> = Vec::new();
        commands.push(Vec::new());
        let c = Config {
            commands,
            directories: Vec::new(),
            files: Vec::new(),
            links: Vec::new(),
            copy: Vec::new(),
            archives: Vec::new(),
        };
        proof {
            assert(c@.commands =~~= initial_config_v().commands);
            assert(c@.directories =~~= initial_config_v().directories);
            assert(c@.files =~~= initial_config_v().files);
            assert(c@.links =~~= initial_config_v().links);
            assert(c@.copy =~~= initial_config_v().copy);
            assert(c@.archives =~~= initial_config_v().archives);
        }
        c
    }
}

impl Default for Config {
    /// The same value [`Config::new`] gives.
    fn default() -> (c: Config)
        ensures
            c@ == initial_config_v(),
    {
        Config::new()
    }
}

} // verus!
