//! Laws of the album list as a whole.
use vstd::prelude::*;
use crate::library::{AlbumEntryView, TrackRowView, album_keys, album_pairs, lists_albums};
use crate::tally::{count_of, first_of, newest_of};

verus! {

/// The largest of two values.
pub open spec fn larger(x: u64, y: u64) -> u64 {
    if y > x {
        y
    } else {
        x
    }
}

/// Taking any one track out of the rows changes an album's count and newest
/// time only by that track.
proof fn lemma_take_out(rows: Seq<TrackRowView>, i: int, a: Seq<char>, b: Seq<char>)
    requires
        0 <= i < rows.len(),
    ensures
        count_of(album_keys(rows), a, b) == count_of(album_keys(rows.remove(i)), a, b) + if rows[i].artist
            == a && rows[i].album == b {
            1nat
        } else {
            0nat
        },
        newest_of(album_keys(rows), a, b) == larger(
            newest_of(album_keys(rows.remove(i)), a, b),
            if rows[i].artist == a && rows[i].album == b {
                rows[i].added
            } else {
                0u64
            },
        ),
    decreases rows.len(),
{
    let n = rows.len();
    assert(album_keys(rows).drop_last() =~= album_keys(rows.drop_last()));
    assert(album_keys(rows).last() == (rows[n - 1].artist, rows[n - 1].album, rows[n - 1].added));
    if i == n - 1 {
        assert(rows.remove(i) =~= rows.drop_last());
    } else {
        let init = rows.drop_last();
        lemma_take_out(init, i, a, b);
        let r = rows.remove(i);
        assert(r.drop_last() =~= init.remove(i));
        assert(r.last() == rows[n - 1]);
        assert(init[i] == rows[i]);
        assert(album_keys(r).drop_last() =~= album_keys(r.drop_last()));
        assert(album_keys(r).last() == (r[r.len() - 1].artist, r[r.len() - 1].album, r[r.len() - 1].added));
    }
}

/// Two sequences holding the same tracks (in any order) count the same
/// tracks and newest time for every album.
proof fn lemma_same_tracks(rows1: Seq<TrackRowView>, rows2: Seq<TrackRowView>, a: Seq<char>, b: Seq<char>)
    requires
        rows1.to_multiset() == rows2.to_multiset(),
    ensures
        count_of(album_keys(rows1), a, b) == count_of(album_keys(rows2), a, b),
        newest_of(album_keys(rows1), a, b) == newest_of(album_keys(rows2), a, b),
    decreases rows1.len(),
{
    rows1.to_multiset_ensures();
    rows2.to_multiset_ensures();
    if rows1.len() == 0 {
        assert(rows2.len() == 0);
        assert(album_keys(rows1) =~= Seq::<crate::tally::KeyedView>::empty());
        assert(album_keys(rows2) =~= Seq::<crate::tally::KeyedView>::empty());
    } else {
        let n = rows1.len();
        let x = rows1[n - 1];
        assert(rows1.contains(x)) by {
            assert(rows1[n - 1] == x);
        }
        assert(rows1.to_multiset().count(x) > 0);
        assert(rows2.to_multiset().count(x) > 0);
        assert(rows2.contains(x));
        let i = choose|i: int| 0 <= i < rows2.len() && rows2[i] == x;
        assert(rows1.remove(n - 1) =~= rows1.drop_last());
        assert(rows1.remove(n - 1).to_multiset() =~= rows1.to_multiset().remove(x));
        assert(rows2.remove(i).to_multiset() =~= rows2.to_multiset().remove(x));
        lemma_same_tracks(rows1.remove(n - 1), rows2.remove(i), a, b);
        lemma_take_out(rows1, n - 1, a, b);
        lemma_take_out(rows2, i, a, b);
    }
}

/// `albums` has an album with the artist, title, number of tracks and time
/// added of `a`.
pub open spec fn appears_in(a: AlbumEntryView, albums: Seq<AlbumEntryView>) -> bool {
    exists|l: int|
        0 <= l < albums.len() && #[trigger] albums[l].artist == a.artist && albums[l].album
            == a.album && albums[l].track_count == a.track_count && albums[l].added == a.added
}

/// The albums do not depend on the order of the tracks: for tracks given
/// in two orders, the two lists of albums are equally long and every album
/// of one appears in the other with the same artist, title, number of
/// tracks and time added.
pub proof fn lemma_albums_ignore_track_order(
    library_dir: Seq<char>,
    rows1: Seq<TrackRowView>,
    rows2: Seq<TrackRowView>,
    albums1: Seq<AlbumEntryView>,
    albums2: Seq<AlbumEntryView>,
)
    requires
        rows1.to_multiset() == rows2.to_multiset(),
        lists_albums(library_dir, rows1, albums1),
        lists_albums(library_dir, rows2, albums2),
    ensures
        albums1.len() == albums2.len(),
        forall|j: int| 0 <= j < albums1.len() ==> appears_in(#[trigger] albums1[j], albums2),
{
    lemma_found_in_other(library_dir, rows1, rows2, albums1, albums2);
    lemma_found_in_other(library_dir, rows2, rows1, albums2, albums1);
    lemma_pairs_distinct(library_dir, rows1, albums1);
    lemma_pairs_distinct(library_dir, rows2, albums2);
    lemma_same_pairs(albums1, albums2);
}

proof fn lemma_same_pairs(albums1: Seq<AlbumEntryView>, albums2: Seq<AlbumEntryView>)
    requires
        album_pairs(albums1).no_duplicates(),
        album_pairs(albums2).no_duplicates(),
        forall|j: int| 0 <= j < albums1.len() ==> appears_in(#[trigger] albums1[j], albums2),
        forall|l: int| 0 <= l < albums2.len() ==> appears_in(#[trigger] albums2[l], albums1),
    ensures
        albums1.len() == albums2.len(),
{
    let p1 = album_pairs(albums1);
    let p2 = album_pairs(albums2);
    assert forall|x: (Seq<char>, Seq<char>)| p1.to_set().contains(x) <==> p2.to_set().contains(x) by {
        if p1.to_set().contains(x) {
            let j = choose|j: int| 0 <= j < p1.len() && p1[j] == x;
            assert(appears_in(albums1[j], albums2));
            let l = choose|l: int|
                0 <= l < albums2.len() && #[trigger] albums2[l].artist == albums1[j].artist
                    && albums2[l].album == albums1[j].album && albums2[l].track_count
                    == albums1[j].track_count && albums2[l].added == albums1[j].added;
            assert(p2[l] == x);
        }
        if p2.to_set().contains(x) {
            let l = choose|l: int| 0 <= l < p2.len() && p2[l] == x;
            assert(appears_in(albums2[l], albums1));
            let j = choose|j: int|
                0 <= j < albums1.len() && #[trigger] albums1[j].artist == albums2[l].artist
                    && albums1[j].album == albums2[l].album && albums1[j].track_count
                    == albums2[l].track_count && albums1[j].added == albums2[l].added;
            assert(p1[j] == x);
        }
    }
    assert(p1.to_set() =~= p2.to_set());
    p1.unique_seq_to_set();
    p2.unique_seq_to_set();
}

proof fn lemma_pairs_distinct(library_dir: Seq<char>, rows: Seq<TrackRowView>, albums: Seq<AlbumEntryView>)
    requires
        lists_albums(library_dir, rows, albums),
    ensures
        album_pairs(albums).no_duplicates(),
{
    let keys = album_keys(rows);
    let ks = album_pairs(albums);
    assert forall|j: int, l: int| 0 <= j < ks.len() && 0 <= l < ks.len() && j != l implies ks[j]
        != ks[l] by {
        if j < l {
            assert(first_of(keys, albums[j].artist, albums[j].album) < first_of(
                keys,
                albums[l].artist,
                albums[l].album,
            ));
        } else {
            assert(first_of(keys, albums[l].artist, albums[l].album) < first_of(
                keys,
                albums[j].artist,
                albums[j].album,
            ));
        }
    }
}

proof fn lemma_found_in_other(
    library_dir: Seq<char>,
    rows1: Seq<TrackRowView>,
    rows2: Seq<TrackRowView>,
    albums1: Seq<AlbumEntryView>,
    albums2: Seq<AlbumEntryView>,
)
    requires
        rows1.to_multiset() == rows2.to_multiset(),
        lists_albums(library_dir, rows1, albums1),
        lists_albums(library_dir, rows2, albums2),
    ensures
        forall|j: int| 0 <= j < albums1.len() ==> appears_in(#[trigger] albums1[j], albums2),
{
    assert forall|j: int| 0 <= j < albums1.len() implies appears_in(#[trigger] albums1[j], albums2) by {
        let a = albums1[j].artist;
        let b = albums1[j].album;
        let keys2 = album_keys(rows2);
        lemma_same_tracks(rows1, rows2, a, b);
        crate::tally::lemma_first_occurrence(keys2, a, b);
        let i = choose|i: int| 0 <= i < keys2.len() && crate::tally::has_key(#[trigger] keys2[i], a, b);
        assert(keys2[i] == (rows2[i].artist, rows2[i].album, rows2[i].added));
        let l = choose|l: int|
            0 <= l < albums2.len() && #[trigger] albums2[l].artist == rows2[i].artist
                && albums2[l].album == rows2[i].album;
        assert(albums2[l].artist == a && albums2[l].album == b);
    }
}

} // verus!
