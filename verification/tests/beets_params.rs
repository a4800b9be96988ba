use soulbeet_library::beets::{
    album_folder, cleanup_arguments, delete_tracks, setting_or, BEETS_DB_DEFAULT,
    CLEANUP_SCRIPT, DELETE_TRACKS_SQL, LIBRARY_DIR_DEFAULT, LIBRARY_TRACKS_SQL, MOVE_TRACK_SQL,
};
use soulbeet_library::paths::{album_dir, album_dir_from, library_relative, track_path};

#[test]
fn settings_fall_back_to_defaults() {
    assert_eq!(setting_or(None, LIBRARY_DIR_DEFAULT), "/app/library");
    assert_eq!(setting_or(None, BEETS_DB_DEFAULT), "/data/musiclibrary.db");
    assert_eq!(setting_or(Some("/music".to_string()), LIBRARY_DIR_DEFAULT), "/music");
}

#[test]
fn delete_prefix_is_the_relative_directory() {
    let d = delete_tracks("/app/library/Artist/Album", "Artist", "Album", "/app/library");
    assert_eq!(d.path_prefix, "Artist/Album/");
    assert_eq!(d.artist, "Artist");
    assert_eq!(d.album, "Album");
}

#[test]
fn delete_prefix_outside_the_library_keeps_the_path() {
    let d = delete_tracks("/elsewhere/Album", "A", "B", "/app/library");
    assert_eq!(d.path_prefix, "/elsewhere/Album/");
    // The library directory itself is no prefix without its separator.
    let d = delete_tracks("/app/library2/X", "A", "B", "/app/library");
    assert_eq!(d.path_prefix, "/app/library2/X/");
}

fn items_db(rows: &[(&str, &str, &str)]) -> rusqlite::Connection {
    let db = rusqlite::Connection::open_in_memory().unwrap();
    db.execute_batch("CREATE TABLE items (path BLOB, albumartist TEXT, album TEXT, added REAL)")
        .unwrap();
    for (path, artist, album) in rows {
        db.execute(
            "INSERT INTO items (path, albumartist, album, added) VALUES (?1, ?2, ?3, 0)",
            (path.as_bytes(), *artist, *album),
        )
        .unwrap();
    }
    db
}

fn item_rows(db: &rusqlite::Connection) -> Vec<(String, String, String)> {
    let mut stmt = db
        .prepare("SELECT CAST(path AS TEXT), albumartist, album FROM items ORDER BY rowid")
        .unwrap();
    stmt.query_map([], |r| Ok((r.get(0)?, r.get(1)?, r.get(2)?)))
        .unwrap()
        .map(|r| r.unwrap())
        .collect()
}

fn owned(rows: &[(&str, &str, &str)]) -> Vec<(String, String, String)> {
    rows.iter().map(|(a, b, c)| (a.to_string(), b.to_string(), c.to_string())).collect()
}

#[test]
fn deleting_an_album_keeps_albums_with_a_longer_name() {
    let db = items_db(&[("A/X/01.flac", "A", "X"), ("A/X (Live)/01.flac", "A", "X (Live)")]);
    let d = delete_tracks("/lib/A/X", "A", "X", "/lib");
    db.execute(DELETE_TRACKS_SQL, (d.path_prefix.as_str(), d.artist.as_str(), d.album.as_str())).unwrap();
    assert_eq!(item_rows(&db), owned(&[("A/X (Live)/01.flac", "A", "X (Live)")]));
}

#[test]
fn deleting_matches_paths_exactly() {
    let db = items_db(&[
        ("A/x/01.flac", "B", "Y"),
        ("A/X/01.flac", "B", "Y"),
        ("A/X_/01.flac", "B", "Y"),
        ("A/X%/01.flac", "B", "Y"),
        ("A/X/02.flac", "C", "Z"),
    ]);
    let d = delete_tracks("/lib/A/X", "A", "X", "/lib");
    db.execute(DELETE_TRACKS_SQL, (d.path_prefix.as_str(), d.artist.as_str(), d.album.as_str())).unwrap();
    assert_eq!(
        item_rows(&db),
        owned(&[("A/x/01.flac", "B", "Y"), ("A/X_/01.flac", "B", "Y"), ("A/X%/01.flac", "B", "Y")])
    );
}

#[test]
fn deleting_also_removes_the_album_by_its_tags() {
    let db = items_db(&[("Elsewhere/01.flac", "A", "X"), ("A/Y/01.flac", "A", "Y")]);
    let d = delete_tracks("/lib/A/X", "A", "X", "/lib");
    db.execute(DELETE_TRACKS_SQL, (d.path_prefix.as_str(), d.artist.as_str(), d.album.as_str())).unwrap();
    assert_eq!(item_rows(&db), owned(&[("A/Y/01.flac", "A", "Y")]));
}

#[test]
fn moving_a_track_changes_its_row_only() {
    let db = items_db(&[("A/X (CD2)/01.flac", "A", "X"), ("A/X/03.flac", "A", "X")]);
    db.execute(MOVE_TRACK_SQL, ("A/X/03.flac", "A/X (CD2)/03.flac")).unwrap();
    assert_eq!(
        item_rows(&db),
        owned(&[("A/X (CD2)/01.flac", "A", "X"), ("A/X (CD2)/03.flac", "A", "X")])
    );
}

#[test]
fn album_folder_is_the_last_component() {
    assert_eq!(album_folder("/app/library/Artist/Album"), "Album");
    assert_eq!(album_folder("/app/library/Artist/Album/"), "Album");
    assert_eq!(album_folder("/"), "");
    assert_eq!(album_folder(""), "");
}

#[test]
fn cleanup_takes_the_folder_as_an_argument() {
    let folder = "Say \"Hi\"";
    let args = cleanup_arguments(folder);
    assert_eq!(args, vec!["-c".to_string(), CLEANUP_SCRIPT.to_string(), folder.to_string()]);
    assert!(!CLEANUP_SCRIPT.contains(folder));
    assert!(CLEANUP_SCRIPT.contains("folder = sys.argv[1]"));
    assert!(CLEANUP_SCRIPT.contains(".split(\"/\")[-1] == folder for part in e"));
}

#[test]
fn sql_texts() {
    assert!(LIBRARY_TRACKS_SQL.starts_with("SELECT CAST(path AS TEXT), albumartist, album, added"));
    assert!(DELETE_TRACKS_SQL.contains("substr(CAST(path AS TEXT), 1, length(?1)) = ?1"));
}

#[test]
fn track_paths_and_relative_paths_undo_each_other() {
    let full = track_path("/app/library", "Artist/Album/01.flac");
    assert_eq!(full, "/app/library/Artist/Album/01.flac");
    assert_eq!(library_relative(&full, "/app/library"), "Artist/Album/01.flac");
    assert_eq!(track_path("/app/library", "/abs/x.flac"), "/abs/x.flac");
    assert_eq!(library_relative("/app/library", "/app/library"), "/app/library");
}

#[test]
fn album_dir_uses_the_parent() {
    assert_eq!(album_dir("/l", "/l/a/b/c.mp3", "a", "b"), "/l/a/b");
    assert_eq!(album_dir("/l", "/", "a", "b"), "/l/a/b");
    assert_eq!(album_dir("/l", "c.mp3", "a", "b"), "");
}

#[test]
fn album_dir_from_a_given_parent() {
    assert_eq!(album_dir_from("/l", Some("/m/a/b".to_string()), "a", "b"), "/m/a/b");
    assert_eq!(album_dir_from("/l", None, "Art", "Alb"), "/l/Art/Alb");
}
