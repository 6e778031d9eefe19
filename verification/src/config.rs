//! Where the notes are kept.
use vstd::prelude::*;
use crate::text::{chars_of, copy_string, extend, string_of};

verus! {

/// The keys that the application listens for.
#[derive(Debug)]
pub struct ShortcutConfig {
    pub toggle_visibility: String,
}

/// Whether the notes are kept in a directory of the user's choice, and
/// in which.
#[derive(Debug)]
pub struct StorageConfig {
    pub notes_directory: Option<String>,
    pub use_custom_directory: bool,
}

/// The storage settings of a new installation: no directory of its own.
pub fn default_storage() -> (config: StorageConfig)
    ensures
        config.notes_directory is None,
        !config.use_custom_directory,
{
    StorageConfig { notes_directory: None, use_custom_directory: false }
}

/// The shortcut settings of a new installation.
pub fn default_shortcuts() -> (config: ShortcutConfig)
    ensures
        config.toggle_visibility@ == "CommandOrControl+Shift+H"@,
{
    ShortcutConfig { toggle_visibility: "CommandOrControl+Shift+H".to_owned() }
}

/// A path with one more component. A component that begins at the root
/// stands for itself; else it follows the base, after a separator where
/// the base does not end in one.
pub open spec fn joined(base: Seq<char>, part: Seq<char>) -> Seq<char> {
    if part.len() > 0 && part[0] == '/' {
        part
    } else if base.len() == 0 {
        part
    } else if base.last() == '/' {
        base + part
    } else {
        base + seq!['/'] + part
    }
}

/// Adds a component to a path.
pub fn join_path(base: &str, part: &str) -> (path: String)
    ensures
        path@ == joined(base@, part@),
{
    let b = chars_of(base);
    let p = chars_of(part);
    if p.len() > 0 && p[0] == '/' {
        return string_of(&p);
    }
    if b.len() == 0 {
        return string_of(&p);
    }
    let mut out: Vec<char> = Vec::new();
    extend(&mut out, &b);
    if b[b.len() - 1] != '/' {
        out.push('/');
    }
    extend(&mut out, &p);
    assert(out@ =~= joined(base@, part@));
    string_of(&out)
}

/// The directory of the application's data under the user's data
/// directory.
pub open spec fn default_directory(data_dir: Seq<char>) -> Seq<char> {
    joined(joined(data_dir, "com.blink.dev"@), "data"@)
}

/// The directory in which notes are kept by default, under the user's
/// data directory.
pub fn get_default_notes_directory(data_dir: Option<&str>) -> (r: Result<String, String>)
    ensures
        match (r, data_dir) {
            (Ok(path), Some(d)) => path@ == default_directory(d@),
            (Err(e), None) => e@ == "Failed to get data directory"@,
            _ => false,
        },
{
    match data_dir {
        Some(d) => {
            let app = join_path(d, "com.blink.dev");
            Ok(join_path(app.as_str(), "data"))
        },
        None => Err("Failed to get data directory".to_owned()),
    }
}

/// The directory in which notes are kept by default.
pub fn get_notes_directory(data_dir: Option<&str>) -> (r: Result<String, String>)
    ensures
        match (r, data_dir) {
            (Ok(path), Some(d)) => path@ == default_directory(d@),
            (Err(e), None) => e@ == "Failed to get data directory"@,
            _ => false,
        },
{
    get_default_notes_directory(data_dir)
}

/// The directory that the settings lead to: the user's own where the
/// settings ask for it and name one, else the default.
pub open spec fn configured_directory(
    use_custom: bool,
    custom: Option<Seq<char>>,
    data_dir: Seq<char>,
) -> Seq<char> {
    if use_custom && custom is Some {
        custom->0
    } else {
        default_directory(data_dir)
    }
}

/// The custom directory of the settings as a mathematical value.
pub open spec fn custom_directory(config: StorageConfig) -> Option<Seq<char>> {
    match config.notes_directory {
        Some(d) => Some(d@),
        None => None,
    }
}

/// The directory in which notes are kept under these settings. It fails
/// only where the default is needed and the user's data directory is not
/// known.
pub fn get_configured_notes_directory(config: &StorageConfig, data_dir: Option<&str>) -> (r: Result<
    String,
    String,
>)
    ensures
        match r {
            Ok(path) => if config.use_custom_directory && config.notes_directory is Some {
                path@ == config.notes_directory->0@
            } else {
                data_dir is Some && path@ == default_directory(data_dir->0@)
            },
            Err(e) => !(config.use_custom_directory && config.notes_directory is Some) && data_dir
                is None && e@ == "Failed to get data directory"@,
        },
{
    if config.use_custom_directory {
        match &config.notes_directory {
            Some(custom) => {
                return Ok(copy_string(custom));
            },
            None => {},
        }
    }
    get_default_notes_directory(data_dir)
}

/// The data directory's hidden subdirectory.
pub open spec fn hidden_directory(data_dir: Seq<char>) -> Seq<char> {
    joined(data_dir, ".blink"@)
}

/// Where the index is kept under a data directory.
pub fn get_database_path(data_dir: &str) -> (path: String)
    ensures
        path@ == joined(hidden_directory(data_dir@), "notes.db"@),
{
    let hidden = join_path(data_dir, ".blink");
    join_path(hidden.as_str(), "notes.db")
}


/// Makes `directory` the directory in which notes are kept.
pub fn set_notes_directory(config: &mut StorageConfig, directory: &str)
    ensures
        final(config).use_custom_directory,
        final(config).notes_directory is Some,
        final(config).notes_directory->0@ == directory@,
{
    config.notes_directory = Some(directory.to_owned());
    config.use_custom_directory = true;
}

} // verus!
