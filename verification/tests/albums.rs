use soulbeet_library::library::{collect_albums, AlbumEntry, TrackRow};

fn row(path: &str, artist: &str, album: &str, added: u64) -> TrackRow {
    TrackRow {
        path: path.to_string(),
        artist: artist.to_string(),
        album: album.to_string(),
        added,
    }
}

fn entry(artist: &str, album: &str, count: usize, path: &str, added: u64) -> AlbumEntry {
    AlbumEntry {
        artist: artist.to_string(),
        album: album.to_string(),
        track_count: count,
        album_path: path.to_string(),
        added,
    }
}

#[test]
fn groups_tracks_into_albums_in_first_occurrence_order() {
    let rows = vec![
        row("Artist A/Album 1/01 One.flac", "Artist A", "Album 1", 10),
        row("Artist B/Album 2/01 Two.flac", "Artist B", "Album 2", 5),
        row("Artist A/Album 1/02 Three.flac", "Artist A", "Album 1", 30),
        row("/elsewhere/Album 2/02 Four.flac", "Artist B", "Album 2", 3),
        row("Artist A/Album 1/03 Five.flac", "Artist A", "Album 1", 20),
    ];
    let albums = collect_albums("/app/library", &rows);
    assert_eq!(
        albums,
        vec![
            entry("Artist A", "Album 1", 3, "/app/library/Artist A/Album 1", 30),
            entry("Artist B", "Album 2", 2, "/app/library/Artist B/Album 2", 5),
        ]
    );
}

#[test]
fn absolute_track_paths_are_kept() {
    let rows = vec![row("/music/X/Y/01.mp3", "X", "Y", 1)];
    let albums = collect_albums("/app/library", &rows);
    assert_eq!(albums, vec![entry("X", "Y", 1, "/music/X/Y", 1)]);
}

#[test]
fn album_path_falls_back_to_library_artist_album() {
    // The root has no parent directory.
    let rows = vec![row("/", "Some Artist", "Some Album", 7)];
    let albums = collect_albums("/lib", &rows);
    assert_eq!(albums, vec![entry("Some Artist", "Some Album", 1, "/lib/Some Artist/Some Album", 7)]);
}

#[test]
fn same_album_title_of_different_artists_stays_apart() {
    let rows = vec![
        row("A/Greatest Hits/1.mp3", "A", "Greatest Hits", 1),
        row("B/Greatest Hits/1.mp3", "B", "Greatest Hits", 2),
    ];
    let albums = collect_albums("/l", &rows);
    assert_eq!(albums.len(), 2);
    assert_eq!(albums[0].artist, "A");
    assert_eq!(albums[1].artist, "B");
}

#[test]
fn no_tracks_no_albums() {
    let albums = collect_albums("/app/library", &Vec::new());
    assert!(albums.is_empty());
}

#[test]
fn track_counts_add_up_to_the_number_of_tracks() {
    let rows = vec![
        row("a/x/1", "a", "x", 0),
        row("b/y/1", "b", "y", 0),
        row("a/x/2", "a", "x", 0),
        row("c/z/1", "c", "z", 0),
        row("b/y/2", "b", "y", 0),
        row("b/y/3", "b", "y", 0),
    ];
    let albums = collect_albums("/l", &rows);
    let total: usize = albums.iter().map(|a| a.track_count).sum();
    assert_eq!(total, rows.len());
    assert_eq!(albums.iter().map(|a| a.track_count).collect::<Vec<_>>(), vec![2, 3, 1]);
}

#[test]
fn newest_added_key_wins_even_when_first_is_newest() {
    let rows = vec![
        row("a/x/1", "a", "x", 99),
        row("a/x/2", "a", "x", 1),
        row("a/x/3", "a", "x", 50),
    ];
    let albums = collect_albums("/l", &rows);
    assert_eq!(albums[0].added, 99);
}

#[test]
fn albums_do_not_depend_on_track_order() {
    let rows = vec![
        row("a/x/1", "a", "x", 3),
        row("b/y/1", "b", "y", 9),
        row("a/x/2", "a", "x", 7),
        row("c/z/1", "c", "z", 1),
    ];
    let reversed: Vec<TrackRow> = rows
        .iter()
        .rev()
        .map(|r| row(&r.path, &r.artist, &r.album, r.added))
        .collect();
    let mut one: Vec<(String, String, usize, u64)> = collect_albums("/l", &rows)
        .into_iter()
        .map(|a| (a.artist, a.album, a.track_count, a.added))
        .collect();
    let mut two: Vec<(String, String, usize, u64)> = collect_albums("/l", &reversed)
        .into_iter()
        .map(|a| (a.artist, a.album, a.track_count, a.added))
        .collect();
    one.sort();
    two.sort();
    assert_eq!(one, two);
}
