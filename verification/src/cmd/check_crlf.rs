//! `check-crlf`: which files are looked at, and what counts as a finding.

use crate::text::{contains, ends_with, has_infix, has_suffix, holds_text};
use crate::types::Context;
use vstd::prelude::*;
use vstd::string::*;

verus! {

/// The arguments of the command: none.
#[derive(Debug)]
pub struct Args;

/// Files with Windows line endings were found.
#[derive(Debug)]
pub struct CrlfError {
    /// The files, in the order in which they were found.
    pub files: Vec<String>,
}

/// The path leads into a directory that is not part of the sources, or to a
/// file that the operating system put there.
pub open spec fn ignored_path(path: Seq<char>) -> bool {
    ||| has_infix(path, "/.git/"@)
    ||| has_infix(path, "/target/"@)
    ||| has_infix(path, "/node_modules/"@)
    ||| has_infix(path, "/.cargo/"@)
    ||| has_suffix(path, "/.DS_Store"@)
    ||| has_suffix(path, "/Thumbs.db"@)
    ||| has_infix(path, "/__pycache__/"@)
    ||| has_infix(path, "/.pytest_cache/"@)
}

/// Whether the walk through the repository passes over `path`.
pub fn is_ignored_path(path: &str) -> (r: bool)
    ensures
        r == ignored_path(path@),
{
    contains(path, "/.git/") || contains(path, "/target/") || contains(path, "/node_modules/") || contains(
        path,
        "/.cargo/",
    ) || ends_with(path, "/.DS_Store") || ends_with(path, "/Thumbs.db") || contains(path, "/__pycache__/")
        || contains(path, "/.pytest_cache/")
}

/// What `str::to_lowercase` makes of `s`.
pub uninterp spec fn lowercase(s: Seq<char>) -> Seq<char>;

/// Calls `str::to_lowercase`, the lowercase form of a text by the rules of
/// Unicode. The claim is only that the result is a function of the text,
/// named `lowercase`.
#[verifier::external_body]
fn to_lowercase(s: &str) -> (r: String)
    ensures
        r@ == lowercase(s@),
{
    s.to_lowercase()
}

/// The file extensions, in lower case, of files that hold text.
pub open spec fn text_extensions() -> Seq<Seq<char>> {
    seq![
        "rs"@,
        "toml"@,
        "md"@,
        "txt"@,
        "yml"@,
        "yaml"@,
        "json"@,
        "js"@,
        "ts"@,
        "html"@,
        "css"@,
        "scss"@,
        "xml"@,
        "svg"@,
        "py"@,
        "sh"@,
        "bash"@,
        "zsh"@,
        "fish"@,
        "ps1"@,
        "bat"@,
        "c"@,
        "cpp"@,
        "cc"@,
        "cxx"@,
        "h"@,
        "hpp"@,
        "hxx"@,
        "java"@,
        "kt"@,
        "scala"@,
        "go"@,
        "rb"@,
        "php"@,
        "cs"@,
        "gitignore"@,
        "gitattributes"@,
        "dockerignore"@,
        "dockerfile"@,
        "makefile"@,
        "cmake"@,
        "gradle"@,
        "sbt"@,
        "pom"@,
        "log"@,
        "ini"@,
        "cfg"@,
        "conf"@,
        "config"@,
    ]
}

/// The names, in lower case, of files without extension that hold text.
pub open spec fn text_file_names() -> Seq<Seq<char>> {
    seq![
        "readme"@,
        "license"@,
        "changelog"@,
        "authors"@,
        "contributors"@,
        "dockerfile"@,
        "makefile"@,
        "rakefile"@,
        "gemfile"@,
        "pipfile"@,
        "cargo.lock"@,
        "package.json"@,
        "package-lock.json"@,
        "yarn.lock"@,
        "pnpm-lock.yaml"@,
        ".gitignore"@,
        ".gitattributes"@,
        ".dockerignore"@,
        ".editorconfig"@,
        ".rustfmt.toml"@,
    ]
}

fn text_extension_list() -> (list: Vec<String>)
    ensures
        list.deep_view() == text_extensions(),
{
    let mut list: Vec<String> = Vec::new();
    list.push(String::from_str("rs"));
    list.push(String::from_str("toml"));
    list.push(String::from_str("md"));
    list.push(String::from_str("txt"));
    list.push(String::from_str("yml"));
    list.push(String::from_str("yaml"));
    list.push(String::from_str("json"));
    list.push(String::from_str("js"));
    list.push(String::from_str("ts"));
    list.push(String::from_str("html"));
    list.push(String::from_str("css"));
    list.push(String::from_str("scss"));
    list.push(String::from_str("xml"));
    list.push(String::from_str("svg"));
    list.push(String::from_str("py"));
    list.push(String::from_str("sh"));
    list.push(String::from_str("bash"));
    list.push(String::from_str("zsh"));
    list.push(String::from_str("fish"));
    list.push(String::from_str("ps1"));
    list.push(String::from_str("bat"));
    list.push(String::from_str("c"));
    list.push(String::from_str("cpp"));
    list.push(String::from_str("cc"));
    list.push(String::from_str("cxx"));
    list.push(String::from_str("h"));
    list.push(String::from_str("hpp"));
    list.push(String::from_str("hxx"));
    list.push(String::from_str("java"));
    list.push(String::from_str("kt"));
    list.push(String::from_str("scala"));
    list.push(String::from_str("go"));
    list.push(String::from_str("rb"));
    list.push(String::from_str("php"));
    list.push(String::from_str("cs"));
    list.push(String::from_str("gitignore"));
    list.push(String::from_str("gitattributes"));
    list.push(String::from_str("dockerignore"));
    list.push(String::from_str("dockerfile"));
    list.push(String::from_str("makefile"));
    list.push(String::from_str("cmake"));
    list.push(String::from_str("gradle"));
    list.push(String::from_str("sbt"));
    list.push(String::from_str("pom"));
    list.push(String::from_str("log"));
    list.push(String::from_str("ini"));
    list.push(String::from_str("cfg"));
    list.push(String::from_str("conf"));
    list.push(String::from_str("config"));
    assert(list.deep_view() =~= text_extensions());
    list
}

fn text_file_name_list() -> (list: Vec<String>)
    ensures
        list.deep_view() == text_file_names(),
{
    let mut list: Vec<String> = Vec::new();
    list.push(String::from_str("readme"));
    list.push(String::from_str("license"));
    list.push(String::from_str("changelog"));
    list.push(String::from_str("authors"));
    list.push(String::from_str("contributors"));
    list.push(String::from_str("dockerfile"));
    list.push(String::from_str("makefile"));
    list.push(String::from_str("rakefile"));
    list.push(String::from_str("gemfile"));
    list.push(String::from_str("pipfile"));
    list.push(String::from_str("cargo.lock"));
    list.push(String::from_str("package.json"));
    list.push(String::from_str("package-lock.json"));
    list.push(String::from_str("yarn.lock"));
    list.push(String::from_str("pnpm-lock.yaml"));
    list.push(String::from_str(".gitignore"));
    list.push(String::from_str(".gitattributes"));
    list.push(String::from_str(".dockerignore"));
    list.push(String::from_str(".editorconfig"));
    list.push(String::from_str(".rustfmt.toml"));
    assert(list.deep_view() =~= text_file_names());
    list
}

/// A file with the extension `extension` is taken for text where the
/// extension, in lower case, is one of `text_extensions`. A file without
/// extension is taken for text where its name `file_name`, in lower case, is
/// one of `text_file_names`.
pub open spec fn likely_text(extension: Option<Seq<char>>, file_name: Option<Seq<char>>) -> bool {
    match extension {
        Some(e) => text_extensions().contains(lowercase(e)),
        None => match file_name {
            Some(f) => text_file_names().contains(lowercase(f)),
            None => false,
        },
    }
}

/// Whether `lower`, an extension in lower case, is one of a file that holds text.
pub fn is_text_extension(lower: &str) -> (r: bool)
    ensures
        r == text_extensions().contains(lower@),
{
    holds_text(&text_extension_list(), lower)
}

/// Whether `lower`, a file name in lower case, is one of a file without
/// extension that holds text.
pub fn is_text_file_name(lower: &str) -> (r: bool)
    ensures
        r == text_file_names().contains(lower@),
{
    holds_text(&text_file_name_list(), lower)
}

/// Whether a file is taken for text, by its extension or, without one, by its name.
pub fn is_likely_text_file(extension: Option<&str>, file_name: Option<&str>) -> (r: bool)
    ensures
        r == likely_text(
            match extension {
                Some(e) => Some(e@),
                None => None,
            },
            match file_name {
                Some(f) => Some(f@),
                None => None,
            },
        ),
{
    match extension {
        Some(e) => {
            let lower = to_lowercase(e);
            is_text_extension(lower.as_str())
        },
        None => match file_name {
            Some(f) => {
                let lower = to_lowercase(f);
                is_text_file_name(lower.as_str())
            },
            None => false,
        },
    }
}

/// Somewhere in `bytes` a carriage return is followed by a line feed.
pub open spec fn has_crlf(bytes: Seq<u8>) -> bool {
    exists|i: int| 0 <= i && i + 1 < bytes.len() && #[trigger] bytes[i] == 13 && bytes[i + 1] == 10
}

/// Whether `contents` holds a Windows line ending.
pub fn contains_crlf(contents: &Vec<u8>) -> (r: bool)
    ensures
        r == has_crlf(contents@),
{
    if contents.len() < 2 {
        return false;
    }
    let last = contents.len() - 1;
    let mut i: usize = 0;
    while i < last
        invariant
            i <= last,
            last + 1 == contents.len(),
            forall|k: int| 0 <= k < i ==> !(#[trigger] contents[k] == 13 && contents[k + 1] == 10),
        decreases last - i,
    {
        if contents[i] == 13 && contents[i + 1] == 10 {
            return true;
        }
        i += 1;
    }
    false
}

/// The verdict of the command on the files that were found to hold Windows
/// line endings: it fails and names them where there is one.
pub fn run(_ctx: &Context, _args: Args, files_with_crlf: Vec<String>) -> (r: Result<(), CrlfError>)
    ensures
        r is Ok <==> files_with_crlf@.len() == 0,
        r matches Err(e) ==> e.files == files_with_crlf,
{
    if files_with_crlf.len() == 0 {
        Ok(())
    } else {
        Err(CrlfError { files: files_with_crlf })
    }
}

} // verus!
