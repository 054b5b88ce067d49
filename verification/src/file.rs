//! Files as sources: naming a configuration file, recognising its format
//! by extension, decoding its bytes, and shaping the diagnostics for a
//! missing or unrecognised file. The probing of the file system itself
//! happens outside this library, which only decides and decodes.

use vstd::prelude::*;

use std::path::PathBuf;

use crate::error::ConfigError;

pub mod format;

verus! {

#[verifier::external_type_specification]
#[verifier::external_body]
pub struct ExPathBuf(PathBuf);

/// A format a configuration file can be stored in, recognised by its file
/// extension.
#[derive(Debug, Clone, Copy, PartialEq, Eq)]
pub enum FileFormat {
    Ini,
    Ron,
    Jsonc,
    Dotenv,
}

impl FileFormat {
    /// The extension this format is recognised by.
    pub open spec fn ext_view(self) -> Seq<char> {
        match self {
            FileFormat::Ini => "ini"@,
            FileFormat::Ron => "ron"@,
            FileFormat::Jsonc => "jsonc"@,
            FileFormat::Dotenv => "env"@,
        }
    }

    /// The extension, as text.
    pub fn extension(&self) -> (r: &'static str)
        ensures
            r@ == self.ext_view(),
    {
        match self {
            FileFormat::Ini => "ini",
            FileFormat::Ron => "ron",
            FileFormat::Jsonc => "jsonc",
            FileFormat::Dotenv => "env",
        }
    }
}

/// The format whose registered extension is `ext`, if any.
pub fn identify_format(ext: &str) -> (r: Option<FileFormat>)
    ensures
        ext@ == FileFormat::Ini.ext_view() ==> r == Some(FileFormat::Ini),
        ext@ == FileFormat::Ron.ext_view() ==> r == Some(FileFormat::Ron),
        ext@ == FileFormat::Jsonc.ext_view() ==> r == Some(FileFormat::Jsonc),
        ext@ == FileFormat::Dotenv.ext_view() ==> r == Some(FileFormat::Dotenv),
        r matches Some(f) ==> ext@ == f.ext_view(),
{
    proof {
        reveal_strlit("ini");
        reveal_strlit("ron");
        reveal_strlit("jsonc");
        reveal_strlit("env");
        assert("ini"@.len() == 3 && "ron"@.len() == 3 && "jsonc"@.len() == 5 && "env"@.len()
            == 3);
        assert("ini"@ != "ron"@) by {
            assert("ini"@[0] == 'i' && "ron"@[0] == 'r');
        }
        assert("ini"@ != "env"@) by {
            assert("ini"@[0] == 'i' && "env"@[0] == 'e');
        }
        assert("ron"@ != "env"@) by {
            assert("ron"@[0] == 'r' && "env"@[0] == 'e');
        }
        assert("ini"@ != "jsonc"@ && "ron"@ != "jsonc"@ && "env"@ != "jsonc"@);
    }
    let owned = ext.to_owned();
    if owned.eq(&"ini".to_owned()) {
        Some(FileFormat::Ini)
    } else if owned.eq(&"ron".to_owned()) {
        Some(FileFormat::Ron)
    } else if owned.eq(&"jsonc".to_owned()) {
        Some(FileFormat::Jsonc)
    } else if owned.eq(&"env".to_owned()) {
        Some(FileFormat::Dotenv)
    } else {
        None
    }
}

/// The byte-order mark that may prefix a file's content.
pub open spec fn strip_bom(b: Seq<u8>) -> Seq<u8> {
    if b.len() >= 3 && b[0] == 0xefu8 && b[1] == 0xbbu8 && b[2] == 0xbfu8 {
        b.skip(3)
    } else {
        b
    }
}

/// What `String::from_utf8_lossy` returns for given bytes; the characters
/// depend on the bytes alone.
pub uninterp spec fn utf8_lossy_of(b: Seq<u8>) -> Seq<char>;

/// Relies on String::from_utf8_lossy: decodes bytes, depending on the
/// bytes alone.
#[verifier::external_body]
fn utf8_lossy(b: &[u8]) -> (r: String)
    ensures
        r@ == utf8_lossy_of(b@),
{
    String::from_utf8_lossy(b).into_owned()
}

/// Decodes a file's bytes: the byte-order mark, when present, is stripped
/// before the lossy decoding.
pub fn decode_file_content(buf: &Vec<u8>) -> (r: String)
    ensures
        r@ == utf8_lossy_of(strip_bom(buf@)),
{
    let s = buf.as_slice();
    if buf.len() >= 3 && s[0] == 0xefu8 && s[1] == 0xbbu8 && s[2] == 0xbfu8 {
        let rest = vstd::slice::slice_subrange(s, 3, buf.len());
        proof {
            assert(rest@ =~= strip_bom(buf@));
        }
        utf8_lossy(rest)
    } else {
        utf8_lossy(s)
    }
}

/// A configuration file named by path, its extension possibly omitted.
#[derive(Debug)]
pub struct FileSourceFile {
    pub name: PathBuf,
}

/// Whether `m` is `pre`, then some file name, then `suf`: the shape the
/// file diagnostics take, stated without fixing the displayed name, which
/// comes from an opaque path.
pub open spec fn wraps_file_name(m: Seq<char>, pre: Seq<char>, suf: Seq<char>) -> bool {
    m.len() >= pre.len() + suf.len() && m.subrange(0, pre.len() as int) == pre && m.subrange(
        m.len() - suf.len(),
        m.len() as int,
    ) == suf
}

impl FileSourceFile {
    /// Describes the file at `name`.
    pub fn new(name: PathBuf) -> (r: FileSourceFile)
        ensures
            r.name == name,
    {
        FileSourceFile { name }
    }

    /// Relies on Path::to_string_lossy for the displayed name.
    #[verifier::external_body]
    fn display_name(&self) -> String {
        self.name.to_string_lossy().into_owned()
    }

    /// The failure reported when the file exists but no registered format
    /// claims its extension.
    pub fn error_invalid_format(&self) -> (r: ConfigError)
        ensures
            r matches ConfigError::NotFound(m) && wraps_file_name(
                m@,
                "configuration file \""@,
                "\" is not of a registered file format"@,
            ),
    {
        let name = self.display_name();
        let m = invalid_format_message(name.as_str());
        proof {
            lemma_wraps_file_name(
                m@,
                "configuration file \""@,
                name@,
                "\" is not of a registered file format"@,
            );
        }
        ConfigError::NotFound(m)
    }

    /// The failure reported when no file was found under the name.
    pub fn error_invalid_path(&self) -> (r: ConfigError)
        ensures
            r matches ConfigError::NotFound(m) && wraps_file_name(
                m@,
                "configuration file \""@,
                "\" not found"@,
            ),
    {
        let name = self.display_name();
        let m = not_found_message(name.as_str());
        proof {
            lemma_wraps_file_name(m@, "configuration file \""@, name@, "\" not found"@);
        }
        ConfigError::NotFound(m)
    }
}

/// A concatenation of prefix, name and suffix has the diagnostic shape.
proof fn lemma_wraps_file_name(m: Seq<char>, pre: Seq<char>, n: Seq<char>, suf: Seq<char>)
    requires
        m == pre + n + suf,
    ensures
        wraps_file_name(m, pre, suf),
{
    assert(m.subrange(0, pre.len() as int) =~= pre);
    assert(m.subrange(m.len() - suf.len(), m.len() as int) =~= suf);
}

/// Relies on PathBuf::clone to copy a path.
#[verifier::external_body]
fn clone_path(p: &PathBuf) -> (r: PathBuf)
    ensures
        r == *p,
{
    p.clone()
}

/// Relies on pathdiff::diff_paths for the relative form of a path with
/// respect to a base directory, when one exists.
#[verifier::external_body]
fn diff_paths(path: &PathBuf, base: &PathBuf) -> Option<PathBuf> {
    pathdiff::diff_paths(path, base)
}

/// The name a resolved file is reported under: its path relative to the
/// base directory when that can be computed, and the path itself
/// otherwise. Without a base the path comes back unchanged; with one, the
/// fallback branch cannot be told apart in the contract, because paths are
/// opaque and the relative form has no name.
pub fn relative_uri(filename: &PathBuf, base: Option<&PathBuf>) -> (r: PathBuf)
    ensures
        base is None ==> r == *filename,
{
    match base {
        Some(b) => match diff_paths(filename, b) {
            Some(p) => p,
            None => clone_path(filename),
        },
        None => clone_path(filename),
    }
}

/// The message naming a file of no registered format.
pub fn invalid_format_message(name: &str) -> (r: String)
    ensures
        r@ == "configuration file \""@ + name@
            + "\" is not of a registered file format"@,
{
    let mut out = String::new();
    out.append("configuration file \"");
    out.append(name);
    out.append("\" is not of a registered file format");
    out
}

/// The message naming a missing file.
pub fn not_found_message(name: &str) -> (r: String)
    ensures
        r@ == "configuration file \""@ + name@ + "\" not found"@,
{
    let mut out = String::new();
    out.append("configuration file \"");
    out.append(name);
    out.append("\" not found");
    out
}

} // verus!
