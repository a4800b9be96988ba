//! The albums of the library, gathered from the tracks that beets knows.
use vstd::prelude::*;
use crate::paths::{album_dir, album_dir_spec, track_path, track_path_spec};
use crate::tally::{Keyed, KeyedView, Tally, count_of, first_of, keyed_views, newest_of, tally,
    tallies, key_at};

verus! {

/// A track as beets records it: its path (relative to the library directory
/// or absolute), its album artist, its album, and the time at which it was
/// added, as an order-preserving key (a larger key is a later time).
pub struct TrackRow {
    pub path: String,
    pub artist: String,
    pub album: String,
    pub added: u64,
}

/// The mathematical value of a track row.
pub struct TrackRowView {
    pub path: Seq<char>,
    pub artist: Seq<char>,
    pub album: Seq<char>,
    pub added: u64,
}

impl View for TrackRow {
    type V = TrackRowView;

    open spec fn view(&self) -> TrackRowView {
        TrackRowView {
            path: self.path@,
            artist: self.artist@,
            album: self.album@,
            added: self.added,
        }
    }
}

/// An album of the library: its artist and title, the number of its tracks,
/// the directory that holds them, and the time its newest track was added
/// (as an order-preserving key).
#[derive(Debug, PartialEq, Eq)]
pub struct AlbumEntry {
    pub artist: String,
    pub album: String,
    pub track_count: usize,
    pub album_path: String,
    pub added: u64,
}

/// The mathematical value of an album entry.
pub struct AlbumEntryView {
    pub artist: Seq<char>,
    pub album: Seq<char>,
    pub track_count: usize,
    pub album_path: Seq<char>,
    pub added: u64,
}

impl View for AlbumEntry {
    type V = AlbumEntryView;

    open spec fn view(&self) -> AlbumEntryView {
        AlbumEntryView {
            artist: self.artist@,
            album: self.album@,
            track_count: self.track_count,
            album_path: self.album_path@,
            added: self.added,
        }
    }
}

impl AlbumEntry {
    /// A copy of this entry.
    pub fn duplicate(&self) -> (r: AlbumEntry)
        ensures
            r@ == self@,
    {
        AlbumEntry {
            artist: self.artist.clone(),
            album: self.album.clone(),
            track_count: self.track_count,
            album_path: self.album_path.clone(),
            added: self.added,
        }
    }
}

/// The views of a sequence of track rows.
pub open spec fn row_views(rows: Seq<TrackRow>) -> Seq<TrackRowView> {
    rows.map_values(|r: TrackRow| r@)
}

/// The views of a sequence of album entries.
pub open spec fn entry_views(entries: Seq<AlbumEntry>) -> Seq<AlbumEntryView> {
    entries.map_values(|e: AlbumEntry| e@)
}

/// The tracks keyed by album: (album artist, album, added).
pub open spec fn album_keys(rows: Seq<TrackRowView>) -> Seq<KeyedView> {
    rows.map_values(|r: TrackRowView| (r.artist, r.album, r.added))
}

/// `albums` lists the albums of `rows`: one entry per distinct (artist,
/// album), in the order in which albums first occur among the tracks; each
/// with the number of its tracks, the time its newest track was added, and
/// the directory of its first track.
pub open spec fn lists_albums(
    library_dir: Seq<char>,
    rows: Seq<TrackRowView>,
    albums: Seq<AlbumEntryView>,
) -> bool {
    let keys = album_keys(rows);
    &&& forall|j: int|
        #![trigger albums[j]]
        0 <= j < albums.len() ==> {
            let a = albums[j];
            let f = first_of(keys, a.artist, a.album);
            &&& a.track_count > 0
            &&& a.track_count == count_of(keys, a.artist, a.album)
            &&& a.added == newest_of(keys, a.artist, a.album)
            &&& 0 <= f < rows.len()
            &&& a.album_path == album_dir_spec(
                library_dir,
                track_path_spec(library_dir, rows[f].path),
                a.artist,
                a.album,
            )
        }
    &&& forall|j: int, l: int|
        0 <= j < l < albums.len() ==> first_of(keys, albums[j].artist, albums[j].album)
            < first_of(keys, albums[l].artist, albums[l].album)
    &&& forall|i: int|
        #![trigger rows[i]]
        0 <= i < rows.len() ==> exists|j: int|
            0 <= j < albums.len() && #[trigger] albums[j].artist == rows[i].artist
                && albums[j].album == rows[i].album
}

/// Gathers the tracks into albums.
pub fn collect_albums(library_dir: &str, rows: &Vec<TrackRow>) -> (albums: Vec<AlbumEntry>)
    ensures
        lists_albums(library_dir@, row_views(rows@), entry_views(albums@)),
{
    let ghost rv = row_views(rows@);
    let mut keyed: Vec<Keyed> = Vec::new();
    let mut i: usize = 0;
    while i < rows.len()
        invariant
            i <= rows.len(),
            rv == row_views(rows@),
            rv.len() == rows.len(),
            keyed.len() == i,
            keyed_views(keyed@) =~= album_keys(rv).take(i as int),
        decreases rows.len() - i,
    {
        keyed.push(
            Keyed {
                primary: rows[i].artist.clone(),
                secondary: rows[i].album.clone(),
                value: rows[i].added,
            },
        );
        assert(rv[i as int] == rows@[i as int]@);
        assert(keyed@[i as int]@ == album_keys(rv)[i as int]);
        assert(keyed_views(keyed@) =~= album_keys(rv).take(i + 1));
        i = i + 1;
    }
    assert(album_keys(rv).take(rows.len() as int) =~= album_keys(rv));
    let ghost keys = album_keys(rv);
    let groups = tally(&keyed);
    assert(tallies(keys, groups@));
    let mut albums: Vec<AlbumEntry> = Vec::new();
    let mut j: usize = 0;
    while j < groups.len()
        invariant
            rv == row_views(rows@),
            keys == album_keys(rv),
            keys.len() == rows.len(),
            tallies(keys, groups@),
            j <= groups.len(),
            albums.len() == j,
            forall|l: int|
                #![trigger albums@[l]]
                0 <= l < j ==> {
                    let t = groups@[l];
                    let r = rv[t.first as int];
                    &&& albums@[l]@.artist == r.artist
                    &&& albums@[l]@.album == r.album
                    &&& albums@[l]@.track_count == t.count
                    &&& albums@[l]@.added == t.newest
                    &&& albums@[l]@.album_path == album_dir_spec(
                        library_dir@,
                        track_path_spec(library_dir@, r.path),
                        r.artist,
                        r.album,
                    )
                },
        decreases groups.len() - j,
    {
        let t: Tally = groups[j];
        assert(t == groups@[j as int]);
        let row = &rows[t.first];
        let full = track_path(library_dir, row.path.as_str());
        let dir = album_dir(library_dir, full.as_str(), row.artist.as_str(), row.album.as_str());
        albums.push(
            AlbumEntry {
                artist: row.artist.clone(),
                album: row.album.clone(),
                track_count: t.count,
                album_path: dir,
                added: t.newest,
            },
        );
        j = j + 1;
    }
    proof {
        let av = entry_views(albums@);
        assert forall|l: int| #![trigger av[l]] 0 <= l < av.len() implies {
            let a = av[l];
            let f = first_of(keys, a.artist, a.album);
            &&& a.track_count > 0
            &&& a.track_count == count_of(keys, a.artist, a.album)
            &&& a.added == newest_of(keys, a.artist, a.album)
            &&& 0 <= f < rv.len()
            &&& a.album_path == album_dir_spec(
                library_dir@,
                track_path_spec(library_dir@, rv[f].path),
                a.artist,
                a.album,
            )
        } by {
            let t = groups@[l];
            assert(albums@[l]@ == av[l]);
            assert(key_at(keys, t.first as int) == (av[l].artist, av[l].album));
            crate::tally::lemma_first_occurrence(keys, av[l].artist, av[l].album);
            assert(has_key_at(keys, t.first as int, av[l].artist, av[l].album));
        }
        assert forall|l: int, m: int| 0 <= l < m < av.len() implies first_of(
            keys,
            av[l].artist,
            av[l].album,
        ) < first_of(keys, av[m].artist, av[m].album) by {
            assert(albums@[l]@ == av[l]);
            assert(albums@[m]@ == av[m]);
            assert(key_at(keys, groups@[l].first as int) == (av[l].artist, av[l].album));
            assert(key_at(keys, groups@[m].first as int) == (av[m].artist, av[m].album));
        }
        assert forall|x: int| #![trigger rv[x]] 0 <= x < rv.len() implies exists|l: int|
            0 <= l < av.len() && #[trigger] av[l].artist == rv[x].artist && av[l].album
                == rv[x].album by {
            assert(keys[x] == (rv[x].artist, rv[x].album, rv[x].added));
            let l = choose|l: int|
                0 <= l < groups@.len() && #[trigger] key_at(keys, groups@[l].first as int)
                    == key_at(keys, x);
            assert(albums@[l]@ == av[l]);
            assert(av[l].artist == rv[x].artist && av[l].album == rv[x].album);
        }
    }
    albums
}

/// Row `i` carries the key `(a, b)`.
spec fn has_key_at(keys: Seq<KeyedView>, i: int, a: Seq<char>, b: Seq<char>) -> bool {
    crate::tally::has_key(keys[i], a, b)
}

/// The number of tracks of the albums, added up.
pub open spec fn total_tracks(albums: Seq<AlbumEntryView>) -> nat
    decreases albums.len(),
{
    if albums.len() == 0 {
        0
    } else {
        total_tracks(albums.drop_last()) + albums.last().track_count as nat
    }
}

/// The keys of the albums.
pub open spec fn album_pairs(albums: Seq<AlbumEntryView>) -> Seq<(Seq<char>, Seq<char>)> {
    albums.map_values(|a: AlbumEntryView| (a.artist, a.album))
}

proof fn lemma_total_is_sum(keys: Seq<KeyedView>, albums: Seq<AlbumEntryView>)
    requires
        forall|j: int|
            0 <= j < albums.len() ==> #[trigger] albums[j].track_count == count_of(
                keys,
                albums[j].artist,
                albums[j].album,
            ),
    ensures
        total_tracks(albums) == crate::tally::sum_counts(keys, album_pairs(albums)),
    decreases albums.len(),
{
    if albums.len() > 0 {
        let init = albums.drop_last();
        assert forall|j: int| 0 <= j < init.len() implies #[trigger] init[j].track_count
            == count_of(keys, init[j].artist, init[j].album) by {
            assert(init[j] == albums[j]);
        }
        lemma_total_is_sum(keys, init);
        assert(album_pairs(albums).drop_last() =~= album_pairs(init));
        assert(albums.last() == albums[albums.len() - 1]);
    }
}

/// Every track is counted in exactly one album: the track counts of the
/// albums add up to the number of tracks.
pub proof fn lemma_every_track_counted(
    library_dir: Seq<char>,
    rows: Seq<TrackRowView>,
    albums: Seq<AlbumEntryView>,
)
    requires
        lists_albums(library_dir, rows, albums),
    ensures
        total_tracks(albums) == rows.len(),
{
    let keys = album_keys(rows);
    let ks = album_pairs(albums);
    lemma_total_is_sum(keys, albums);
    assert forall|j: int, l: int| 0 <= j < l < ks.len() implies ks[j] != ks[l] by {
        assert(first_of(keys, albums[j].artist, albums[j].album) < first_of(
            keys,
            albums[l].artist,
            albums[l].album,
        ));
    }
    assert forall|i: int| 0 <= i < keys.len() implies ks.contains(
        (#[trigger] keys[i].0, keys[i].1),
    ) by {
        assert(keys[i] == (rows[i].artist, rows[i].album, rows[i].added));
        let j = choose|j: int|
            0 <= j < albums.len() && #[trigger] albums[j].artist == rows[i].artist
                && albums[j].album == rows[i].album;
        assert(ks[j] == (keys[i].0, keys[i].1));
    }
    crate::tally::lemma_counts_cover_rows(keys, ks);
}

} // verus!
