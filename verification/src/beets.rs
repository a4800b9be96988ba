//! What the library asks of beets: where its library and database are, the
//! SQL it runs on the database, the parameters of those statements, and the
//! script that clears beets' import history for a removed album.
use vstd::prelude::*;
use crate::paths::{file_name, library_relative, library_relative_spec, path_file_name, slash};

verus! {

/// The environment variable naming the beets library directory.
pub const LIBRARY_DIR_VARIABLE: &'static str = "BEETS_LIBRARY_DIR";

/// The library directory when the environment names none.
pub const LIBRARY_DIR_DEFAULT: &'static str = "/app/library";

/// The environment variable naming the beets database file.
pub const BEETS_DB_VARIABLE: &'static str = "BEETS_DB";

/// The database file when the environment names none.
pub const BEETS_DB_DEFAULT: &'static str = "/data/musiclibrary.db";

/// The tracks of the library that have an album artist and an album: path,
/// album artist, album, time added.
pub const LIBRARY_TRACKS_SQL: &'static str = "SELECT CAST(path AS TEXT), albumartist, album, added FROM items WHERE albumartist != '' AND album != ''";

/// Removes the tracks whose path starts with `?1` (exactly, case and all) or
/// that belong to the album `?3` of the artist `?2`.
pub const DELETE_TRACKS_SQL: &'static str = "DELETE FROM items WHERE substr(CAST(path AS TEXT), 1, length(?1)) = ?1 OR (albumartist = ?2 AND album = ?3)";

/// The paths of the tracks of an album (`?1` artist, `?2` album).
pub const ALBUM_TRACK_PATHS_SQL: &'static str = "SELECT CAST(path AS TEXT) FROM items WHERE albumartist = ?1 AND album = ?2";

/// Gives the tracks stored at exactly the path `?1` the path `?2`.
pub const MOVE_TRACK_SQL: &'static str = "UPDATE items SET path = CAST(?2 AS BLOB) WHERE CAST(path AS TEXT) = ?1";

/// The file in which beets keeps its import state.
pub const BEETS_STATE_FILE: &'static str = "/root/.config/beets/state.pickle";

/// The Python script that removes from beets' import history every entry
/// one of whose paths ends in the folder named by its first argument. The
/// folder's name is passed as an argument, never spliced into the code.
pub const CLEANUP_SCRIPT: &'static str = "\nimport pickle, os, sys\nfolder = sys.argv[1]\nstate_path = \"/root/.config/beets/state.pickle\"\nif not os.path.exists(state_path):\n    exit(0)\nwith open(state_path, \"rb\") as f:\n    state = pickle.load(f)\nhistory = state.get(\"taghistory\", set())\nbefore = len(history)\nhistory = {e for e in history if not any(part.decode(\"utf-8\", errors=\"replace\").split(\"/\")[-1] == folder for part in e if isinstance(part, bytes))}\nstate[\"taghistory\"] = history\nwith open(state_path, \"wb\") as f:\n    pickle.dump(state, f)\nprint(f\"Cleared {before - len(history)} entries from taghistory\")\n";

/// A setting: the value the environment gives, or the default.
pub fn setting_or(value: Option<String>, default: &str) -> (r: String)
    ensures
        r@ == match value {
            Some(v) => v@,
            None => default@,
        },
{
    match value {
        Some(v) => v,
        None => String::from_str(default),
    }
}

/// The parameters of `DELETE_TRACKS_SQL`.
pub struct DeleteTracks {
    pub path_prefix: String,
    pub artist: String,
    pub album: String,
}

/// The parameters that remove an album from the beets database: the tracks
/// inside the album's directory (its path relative to the library
/// directory when it lies below it, followed by the separator, so that no
/// other directory whose name merely starts the same way is matched), and
/// the tracks tagged with its artist and album.
pub fn delete_tracks(album_path: &str, artist: &str, album: &str, library_dir: &str) -> (r:
    DeleteTracks)
    ensures
        r.path_prefix@ == library_relative_spec(album_path@, library_dir@) + slash(),
        r.artist@ == artist@,
        r.album@ == album@,
{
    proof {
        reveal_strlit("/");
    }
    assert("/"@ =~= slash());
    let relative = library_relative(album_path, library_dir);
    DeleteTracks {
        path_prefix: relative.concat("/"),
        artist: String::from_str(artist),
        album: String::from_str(album),
    }
}

/// The name of an album's folder: the last component of its path, or the
/// empty text when it has none.
pub fn album_folder(album_path: &str) -> (r: String)
    ensures
        r@ == match path_file_name(album_path@) {
            Some(n) => n,
            None => Seq::empty(),
        },
{
    match file_name(album_path) {
        Some(n) => n,
        None => String::new(),
    }
}

/// The arguments of `python3` that clear beets' import history of the
/// folder `folder`: the constant script, then the folder's name as its
/// argument.
pub fn cleanup_arguments(folder: &str) -> (r: Vec<String>)
    ensures
        r@.len() == 3,
        r@[0]@ == "-c"@,
        r@[1]@ == CLEANUP_SCRIPT@,
        r@[2]@ == folder@,
{
    let mut r: Vec<String> = Vec::new();
    r.push(String::from_str("-c"));
    r.push(String::from_str(CLEANUP_SCRIPT));
    r.push(String::from_str(folder));
    r
}

} // verus!
