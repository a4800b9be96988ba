use soulbeet_library::library::AlbumEntry;
use soulbeet_library::view::{
    album_key, group_by_artist, sort_albums, track_label, LibraryLayout, LibraryPageState, SortMode,
};

fn entry(artist: &str, album: &str, count: usize, added: u64) -> AlbumEntry {
    AlbumEntry {
        artist: artist.to_string(),
        album: album.to_string(),
        track_count: count,
        album_path: format!("/app/library/{}/{}", artist, album),
        added,
    }
}

fn names(v: &[AlbumEntry]) -> Vec<(String, String)> {
    v.iter().map(|e| (e.artist.clone(), e.album.clone())).collect()
}

fn pairs(v: &[(&str, &str)]) -> Vec<(String, String)> {
    v.iter().map(|(a, b)| (a.to_string(), b.to_string())).collect()
}

#[test]
fn artist_order_ignores_case() {
    let albums = vec![
        entry("beatles", "Abbey Road", 17, 1),
        entry("Air", "Moon Safari", 10, 2),
        entry("Beatles", "Help", 14, 3),
        entry("ABBA", "Gold", 19, 4),
    ];
    let sorted = sort_albums(&albums, SortMode::Artist);
    assert_eq!(
        names(&sorted),
        pairs(&[("ABBA", "Gold"), ("Air", "Moon Safari"), ("beatles", "Abbey Road"), ("Beatles", "Help")])
    );
}

#[test]
fn artist_order_uses_lower_case_not_code_points() {
    // Without lower-casing, "Banana" would sort before "apple".
    let albums = vec![entry("Banana", "B", 1, 0), entry("apple", "A", 1, 0)];
    let sorted = sort_albums(&albums, SortMode::Artist);
    assert_eq!(names(&sorted), pairs(&[("apple", "A"), ("Banana", "B")]));
}

#[test]
fn album_order_then_artist() {
    let albums = vec![
        entry("Zed", "greatest hits", 1, 0),
        entry("Amy", "Greatest Hits", 1, 0),
        entry("Bob", "Another", 1, 0),
    ];
    let sorted = sort_albums(&albums, SortMode::Album);
    assert_eq!(
        names(&sorted),
        pairs(&[("Bob", "Another"), ("Amy", "Greatest Hits"), ("Zed", "greatest hits")])
    );
}

#[test]
fn date_order_newest_first_ties_keep_order() {
    let albums = vec![
        entry("a", "1", 1, 10),
        entry("b", "2", 1, 30),
        entry("c", "3", 1, 10),
        entry("d", "4", 1, 20),
    ];
    let sorted = sort_albums(&albums, SortMode::DateAdded);
    assert_eq!(names(&sorted), pairs(&[("b", "2"), ("d", "4"), ("a", "1"), ("c", "3")]));
}

#[test]
fn equal_keys_keep_their_order() {
    let albums = vec![entry("X", "Same", 1, 1), entry("x", "same", 2, 2), entry("X", "SAME", 3, 3)];
    let sorted = sort_albums(&albums, SortMode::Artist);
    assert_eq!(sorted.iter().map(|e| e.track_count).collect::<Vec<_>>(), vec![1, 2, 3]);
}

#[test]
fn sorting_keeps_every_album() {
    let albums = vec![
        entry("c", "z", 1, 5),
        entry("a", "y", 2, 6),
        entry("b", "x", 3, 7),
        entry("a", "w", 4, 8),
    ];
    for mode in [SortMode::Artist, SortMode::Album, SortMode::DateAdded] {
        let sorted = sort_albums(&albums, mode);
        let mut got: Vec<usize> = sorted.iter().map(|e| e.track_count).collect();
        got.sort();
        assert_eq!(got, vec![1, 2, 3, 4]);
    }
}

#[test]
fn grouping_by_artist_keeps_runs() {
    let albums = vec![
        entry("A", "1", 1, 0),
        entry("A", "2", 1, 0),
        entry("B", "3", 1, 0),
        entry("A", "4", 1, 0),
    ];
    let groups = group_by_artist(&albums);
    let shape: Vec<(String, usize)> = groups.iter().map(|g| (g.artist.clone(), g.albums.len())).collect();
    assert_eq!(
        shape,
        vec![("A".to_string(), 2), ("B".to_string(), 1), ("A".to_string(), 1)]
    );
    let flat: Vec<AlbumEntry> = groups.into_iter().flat_map(|g| g.albums).collect();
    assert_eq!(flat, albums);
}

#[test]
fn grouping_nothing_gives_no_groups() {
    assert!(group_by_artist(&Vec::new()).is_empty());
}

#[test]
fn keys_and_labels() {
    let e = entry("Daft Punk", "Discovery", 1, 0);
    assert_eq!(album_key(&e), "Daft Punk/Discovery");
    assert_eq!(track_label(1), "track");
    assert_eq!(track_label(0), "tracks");
    assert_eq!(track_label(14), "tracks");
}

#[test]
fn new_page_is_empty_and_ordered_by_artist() {
    let page = LibraryPageState::new();
    assert!(page.albums.is_empty());
    assert!(!page.shows_error());
    assert!(page.is_sorted_by(SortMode::Artist));
    assert!(!page.is_sorted_by(SortMode::Album));
    assert!(matches!(page.layout(), LibraryLayout::Empty));
    assert_eq!(page.confirm_label(), "Delete");
}

#[test]
fn load_failure_shows_error() {
    let mut page = LibraryPageState::new();
    page.library_loaded(Err("boom".to_string()));
    assert_eq!(page.error, "Failed to load library: boom");
    assert!(page.shows_error());
    page.library_loaded(Ok(vec![entry("A", "B", 2, 0)]));
    assert_eq!(page.albums.len(), 1);
    assert_eq!(page.error, "Failed to load library: boom");
}

#[test]
fn delete_flow() {
    let mut page = LibraryPageState::new();
    let e = entry("Artist", "Record", 3, 0);
    page.library_loaded(Ok(vec![entry("Artist", "Record", 3, 0), entry("Other", "Thing", 1, 0)]));
    assert!(page.delete_confirmed().is_none());
    assert!(page.deleting.is_none());
    page.ask_delete(entry("Artist", "Record", 3, 0));
    assert!(page.confirm_delete.is_some());
    page.error = "old".to_string();
    let call = page.delete_confirmed().expect("an album awaits confirmation");
    assert_eq!(call.album_path, "/app/library/Artist/Record");
    assert_eq!(call.artist, "Artist");
    assert_eq!(call.album, "Record");
    assert_eq!(page.deleting.as_deref(), Some("Artist/Record"));
    assert_eq!(page.error, "");
    assert_eq!(page.confirm_label(), "Deleting...");
    let row = page.album_row(&e);
    assert!(row.is_deleting);
    assert!(!row.is_consolidating);
    assert!(row.disabled);
    assert_eq!(row.delete_label, "Deleting...");
    assert_eq!(row.consolidate_label, "Fix in Navidrome");
    assert_eq!(row.track_label, "tracks");
    let other = page.album_row(&entry("Other", "Thing", 1, 0));
    assert!(!other.is_deleting);
    assert!(!other.disabled);
    assert_eq!(other.track_label, "track");
    assert!(page.delete_answered(Ok(())));
    page.delete_settled();
    assert!(page.deleting.is_none());
    assert!(page.confirm_delete.is_none());
}

#[test]
fn delete_failure_keeps_library() {
    let mut page = LibraryPageState::new();
    page.ask_delete(entry("A", "B", 1, 0));
    let call = page.delete_confirmed().expect("an album awaits confirmation");
    assert_eq!(call.album, "B");
    assert!(!page.delete_answered(Err("no such directory".to_string())));
    assert_eq!(page.error, "Failed to delete: no such directory");
    page.delete_settled();
    assert!(page.deleting.is_none());
}

#[test]
fn consolidate_flow() {
    let mut page = LibraryPageState::new();
    let e = entry("A", "B", 1, 0);
    page.ask_delete(entry("C", "D", 1, 0));
    let call = page.start_consolidate(&e);
    assert_eq!((call.artist.as_str(), call.album.as_str()), ("A", "B"));
    let row = page.album_row(&e);
    assert!(row.is_consolidating);
    assert!(row.disabled);
    assert_eq!(row.consolidate_label, "Fixing...");
    assert!(!page.consolidate_answered(Err("x".to_string())));
    assert_eq!(page.error, "Failed to consolidate: x");
    page.consolidate_settled();
    assert!(page.consolidating.is_none());
    // Consolidating leaves a pending confirmation alone.
    assert!(page.confirm_delete.is_some());
    page.cancel_delete();
    assert!(page.confirm_delete.is_none());
}

#[test]
fn layout_follows_sort_mode() {
    let mut page = LibraryPageState::new();
    page.library_loaded(Ok(vec![
        entry("b", "x", 1, 1),
        entry("a", "z", 1, 3),
        entry("a", "y", 1, 2),
    ]));
    match page.layout() {
        LibraryLayout::ByArtist(groups) => {
            assert_eq!(groups.len(), 2);
            assert_eq!(groups[0].artist, "a");
            assert_eq!(names(&groups[0].albums), pairs(&[("a", "y"), ("a", "z")]));
            assert_eq!(groups[1].artist, "b");
        }
        _ => panic!("expected groups"),
    }
    page.choose_sort(SortMode::DateAdded);
    assert!(page.is_sorted_by(SortMode::DateAdded));
    match page.layout() {
        LibraryLayout::Flat(sorted) => {
            assert_eq!(names(&sorted), pairs(&[("a", "z"), ("a", "y"), ("b", "x")]))
        }
        _ => panic!("expected a flat list"),
    }
    page.choose_sort(SortMode::Album);
    match page.layout() {
        LibraryLayout::Flat(sorted) => {
            assert_eq!(names(&sorted), pairs(&[("b", "x"), ("a", "y"), ("a", "z")]))
        }
        _ => panic!("expected a flat list"),
    }
}

#[test]
fn cancelled_or_finished_deletions_make_no_call() {
    let mut page = LibraryPageState::new();
    page.ask_delete(entry("A", "B", 1, 0));
    page.cancel_delete();
    assert!(page.delete_confirmed().is_none());
    page.ask_delete(entry("A", "B", 1, 0));
    page.ask_delete(entry("C", "D", 1, 0));
    let call = page.delete_confirmed().expect("the last album asked for");
    assert_eq!((call.artist.as_str(), call.album.as_str()), ("C", "D"));
    assert!(page.delete_answered(Ok(())));
    page.delete_settled();
    assert!(page.delete_confirmed().is_none());
}
