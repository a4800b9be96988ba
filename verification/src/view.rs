//! The library page: the order in which it lists albums, their grouping by
//! artist, and the state that its buttons change.
use vstd::prelude::*;
use crate::library::{AlbumEntry, AlbumEntryView, entry_views};
use crate::order::{KeyView, SortKey, arranged, key_lt, key_views, sorts_stably, stable_order};
use crate::paths::{join, join_spec};
use crate::text::{chars_of, lowercase, text_lowercase, text_lt};

verus! {

/// The orders in which the page lists albums.
#[derive(Clone, Copy, Debug, PartialEq, Eq)]
pub enum SortMode {
    /// By artist, then album, ignoring case; grouped by artist.
    Artist,
    /// By album, then artist, ignoring case.
    Album,
    /// Most recently added first.
    DateAdded,
}

/// The key by which `mode` orders an album.
pub open spec fn album_sort_key(mode: SortMode, e: AlbumEntryView) -> KeyView {
    match mode {
        SortMode::Artist => (text_lowercase(e.artist), text_lowercase(e.album), 0u64),
        SortMode::Album => (text_lowercase(e.album), text_lowercase(e.artist), 0u64),
        SortMode::DateAdded => (Seq::empty(), Seq::empty(), (u64::MAX - e.added) as u64),
    }
}

/// The keys by which `mode` orders a sequence of albums.
pub open spec fn album_sort_keys(mode: SortMode, es: Seq<AlbumEntryView>) -> Seq<KeyView> {
    es.map_values(|e: AlbumEntryView| album_sort_key(mode, e))
}

/// `sorted` is `albums` in the order of `mode`, albums with equal keys in
/// their original order.
pub open spec fn sorted_as(
    mode: SortMode,
    albums: Seq<AlbumEntryView>,
    sorted: Seq<AlbumEntryView>,
) -> bool {
    exists|order: Seq<usize>|
        sorts_stably(album_sort_keys(mode, albums), order) && sorted == arranged(albums, order)
}

/// `s` is listed in the order of `mode`, stated on the albums' own fields:
/// by lower-cased artist then title, by lower-cased title then artist, or
/// newest added first.
pub open spec fn listed_in_order(mode: SortMode, s: Seq<AlbumEntryView>) -> bool {
    match mode {
        SortMode::Artist => forall|k: int, l: int|
            0 <= k < l < s.len() ==> {
                &&& !text_lt(text_lowercase(#[trigger] s[l].artist), text_lowercase(#[trigger] s[k].artist))
                &&& text_lowercase(s[k].artist) == text_lowercase(s[l].artist) ==> !text_lt(
                    text_lowercase(s[l].album),
                    text_lowercase(s[k].album),
                )
            },
        SortMode::Album => forall|k: int, l: int|
            0 <= k < l < s.len() ==> {
                &&& !text_lt(text_lowercase(#[trigger] s[l].album), text_lowercase(#[trigger] s[k].album))
                &&& text_lowercase(s[k].album) == text_lowercase(s[l].album) ==> !text_lt(
                    text_lowercase(s[l].artist),
                    text_lowercase(s[k].artist),
                )
            },
        SortMode::DateAdded => forall|k: int, l: int|
            0 <= k < l < s.len() ==> (#[trigger] s[k]).added >= (#[trigger] s[l]).added,
    }
}

/// Read in the order of `mode`, no album's key comes before that of an album
/// listed earlier.
proof fn lemma_sorted_keys(mode: SortMode, albums: Seq<AlbumEntryView>, sorted: Seq<AlbumEntryView>)
    requires
        sorted_as(mode, albums, sorted),
    ensures
        sorted.len() == albums.len(),
        forall|k: int, l: int|
            0 <= k < l < sorted.len() ==> !key_lt(
                album_sort_key(mode, #[trigger] sorted[l]),
                album_sort_key(mode, #[trigger] sorted[k]),
            ),
{
    let keys = album_sort_keys(mode, albums);
    let order = choose|order: Seq<usize>|
        sorts_stably(keys, order) && sorted == arranged(albums, order);
    assert forall|k: int, l: int| 0 <= k < l < sorted.len() implies !key_lt(
        album_sort_key(mode, #[trigger] sorted[l]),
        album_sort_key(mode, #[trigger] sorted[k]),
    ) by {
        assert(!key_lt(keys[order[l] as int], keys[order[k] as int]));
        assert(sorted[l] == albums[order[l] as int]);
        assert(sorted[k] == albums[order[k] as int]);
    }
}

/// In artist order the lower-cased artists never decrease, and among albums
/// of one lower-cased artist the lower-cased titles never decrease: an album
/// by "Queen" comes before one by "Queens of the Stone Age", one by "50 Cent"
/// before one by "ABBA".
pub proof fn lemma_artist_order(albums: Seq<AlbumEntryView>, sorted: Seq<AlbumEntryView>)
    requires
        sorted_as(SortMode::Artist, albums, sorted),
    ensures
        sorted.len() == albums.len(),
        forall|k: int, l: int|
            0 <= k < l < sorted.len() ==> !text_lt(
                text_lowercase(#[trigger] sorted[l].artist),
                text_lowercase(#[trigger] sorted[k].artist),
            ),
        forall|k: int, l: int|
            0 <= k < l < sorted.len() && text_lowercase(#[trigger] sorted[k].artist)
                == text_lowercase(#[trigger] sorted[l].artist) ==> !text_lt(
                text_lowercase(sorted[l].album),
                text_lowercase(sorted[k].album),
            ),
{
    lemma_sorted_keys(SortMode::Artist, albums, sorted);
}

/// In album order the lower-cased titles never decrease, and among albums of
/// one lower-cased title the lower-cased artists never decrease: "folklore"
/// comes before "Moon Safari", and of two "Greatest Hits" the one by "alt-J"
/// before the one by "Blur".
pub proof fn lemma_album_order(albums: Seq<AlbumEntryView>, sorted: Seq<AlbumEntryView>)
    requires
        sorted_as(SortMode::Album, albums, sorted),
    ensures
        sorted.len() == albums.len(),
        forall|k: int, l: int|
            0 <= k < l < sorted.len() ==> !text_lt(
                text_lowercase(#[trigger] sorted[l].album),
                text_lowercase(#[trigger] sorted[k].album),
            ),
        forall|k: int, l: int|
            0 <= k < l < sorted.len() && text_lowercase(#[trigger] sorted[k].album)
                == text_lowercase(#[trigger] sorted[l].album) ==> !text_lt(
                text_lowercase(sorted[l].artist),
                text_lowercase(sorted[k].artist),
            ),
{
    lemma_sorted_keys(SortMode::Album, albums, sorted);
}

/// In date-added order the newest album comes first: the added keys never
/// increase along the result.
pub proof fn lemma_date_order(albums: Seq<AlbumEntryView>, sorted: Seq<AlbumEntryView>)
    requires
        sorted_as(SortMode::DateAdded, albums, sorted),
    ensures
        sorted.len() == albums.len(),
        forall|k: int, l: int|
            0 <= k < l < sorted.len() ==> (#[trigger] sorted[k]).added >= (
            #[trigger] sorted[l]).added,
{
    lemma_sorted_keys(SortMode::DateAdded, albums, sorted);
    assert(!text_lt(Seq::<char>::empty(), Seq::<char>::empty()));
}

/// The key of an album under `mode`.
fn sort_key(mode: SortMode, e: &AlbumEntry) -> (k: SortKey)
    ensures
        k@ == album_sort_key(mode, e@),
{
    match mode {
        SortMode::Artist => {
            let a = lowercase(e.artist.as_str());
            let b = lowercase(e.album.as_str());
            SortKey { major: chars_of(a.as_str()), minor: chars_of(b.as_str()), rank: 0 }
        },
        SortMode::Album => {
            let a = lowercase(e.album.as_str());
            let b = lowercase(e.artist.as_str());
            SortKey { major: chars_of(a.as_str()), minor: chars_of(b.as_str()), rank: 0 }
        },
        SortMode::DateAdded => {
            let k = SortKey { major: Vec::new(), minor: Vec::new(), rank: u64::MAX - e.added };
            assert(k@ =~= album_sort_key(mode, e@));
            k
        },
    }
}

/// The albums in the order of `mode` (a stable sort).
pub fn sort_albums(albums: &Vec<AlbumEntry>, mode: SortMode) -> (sorted: Vec<AlbumEntry>)
    ensures
        sorted_as(mode, entry_views(albums@), entry_views(sorted@)),
        sorted.len() == albums.len(),
        listed_in_order(mode, entry_views(sorted@)),
{
    let ghost av = entry_views(albums@);
    let mut keys: Vec<SortKey> = Vec::new();
    let mut i: usize = 0;
    while i < albums.len()
        invariant
            i <= albums.len(),
            av == entry_views(albums@),
            av.len() == albums.len(),
            keys.len() == i,
            key_views(keys@) =~= album_sort_keys(mode, av).take(i as int),
        decreases albums.len() - i,
    {
        let k = sort_key(mode, &albums[i]);
        keys.push(k);
        assert(av[i as int] == albums@[i as int]@);
        assert(key_views(keys@) =~= album_sort_keys(mode, av).take(i + 1));
        i = i + 1;
    }
    assert(album_sort_keys(mode, av).take(albums.len() as int) =~= album_sort_keys(mode, av));
    let order = stable_order(&keys);
    let mut sorted: Vec<AlbumEntry> = Vec::new();
    let mut k: usize = 0;
    while k < order.len()
        invariant
            av == entry_views(albums@),
            av.len() == albums.len(),
            sorts_stably(album_sort_keys(mode, av), order@),
            k <= order.len(),
            sorted.len() == k,
            entry_views(sorted@) =~= arranged(av, order@).take(k as int),
        decreases order.len() - k,
    {
        let e = albums[order[k]].duplicate();
        sorted.push(e);
        assert(entry_views(sorted@) =~= arranged(av, order@).take(k + 1));
        k = k + 1;
    }
    assert(arranged(av, order@).take(order.len() as int) =~= arranged(av, order@));
    proof {
        let sv = entry_views(sorted@);
        match mode {
            SortMode::Artist => lemma_artist_order(av, sv),
            SortMode::Album => lemma_album_order(av, sv),
            SortMode::DateAdded => lemma_date_order(av, sv),
        }
    }
    sorted
}

/// The albums of one artist, as the page shows them under the artist's name.
pub struct ArtistGroup {
    pub artist: String,
    pub albums: Vec<AlbumEntry>,
}

/// The mathematical value of an artist group.
pub struct ArtistGroupView {
    pub artist: Seq<char>,
    pub albums: Seq<AlbumEntryView>,
}

impl View for ArtistGroup {
    type V = ArtistGroupView;

    open spec fn view(&self) -> ArtistGroupView {
        ArtistGroupView { artist: self.artist@, albums: entry_views(self.albums@) }
    }
}

/// The views of a sequence of artist groups.
pub open spec fn group_views(groups: Seq<ArtistGroup>) -> Seq<ArtistGroupView> {
    groups.map_values(|g: ArtistGroup| g@)
}

/// The albums of the groups, one group after the other.
pub open spec fn flatten(groups: Seq<ArtistGroupView>) -> Seq<AlbumEntryView>
    decreases groups.len(),
{
    if groups.len() == 0 {
        Seq::empty()
    } else {
        flatten(groups.drop_last()) + groups.last().albums
    }
}

/// `groups` splits `albums` into runs of the same artist: read one after the
/// other they give back `albums`; no group is empty; every album of a group
/// is by the group's artist; neighbouring groups have different artists.
pub open spec fn groups_runs(albums: Seq<AlbumEntryView>, groups: Seq<ArtistGroupView>) -> bool {
    &&& flatten(groups) == albums
    &&& forall|j: int|
        #![trigger groups[j]]
        0 <= j < groups.len() ==> groups[j].albums.len() > 0 && forall|k: int|
            0 <= k < groups[j].albums.len() ==> #[trigger] groups[j].albums[k].artist
                == groups[j].artist
    &&& forall|j: int| 0 < j < groups.len() ==> #[trigger] groups[j - 1].artist != groups[j].artist
}

/// Groups consecutive albums of the same artist, keeping their order.
pub fn group_by_artist(albums: &Vec<AlbumEntry>) -> (groups: Vec<ArtistGroup>)
    ensures
        groups_runs(entry_views(albums@), group_views(groups@)),
{
    let ghost av = entry_views(albums@);
    let mut groups: Vec<ArtistGroup> = Vec::new();
    if albums.len() == 0 {
        assert(group_views(groups@) =~= Seq::<ArtistGroupView>::empty());
        assert(av =~= Seq::<AlbumEntryView>::empty());
        return groups;
    }
    let mut artist = albums[0].artist.clone();
    let mut run: Vec<AlbumEntry> = Vec::new();
    run.push(albums[0].duplicate());
    let mut i: usize = 1;
    assert(entry_views(run@) =~= av.take(1));
    assert(flatten(group_views(groups@)) =~= Seq::<AlbumEntryView>::empty());
    while i < albums.len()
        invariant
            av == entry_views(albums@),
            av.len() == albums.len(),
            1 <= i <= albums.len(),
            flatten(group_views(groups@)) + entry_views(run@) == av.take(i as int),
            run.len() > 0,
            forall|k: int| 0 <= k < run.len() ==> #[trigger] run@[k]@.artist == artist@,
            groups.len() > 0 ==> group_views(groups@).last().artist != artist@,
            forall|j: int|
                #![trigger group_views(groups@)[j]]
                0 <= j < groups.len() ==> group_views(groups@)[j].albums.len() > 0 && forall|
                    k: int,
                |
                    0 <= k < group_views(groups@)[j].albums.len() ==> #[trigger] group_views(
                        groups@,
                    )[j].albums[k].artist == group_views(groups@)[j].artist,
            forall|j: int|
                0 < j < groups.len() ==> #[trigger] group_views(groups@)[j - 1].artist
                    != group_views(groups@)[j].artist,
        decreases albums.len() - i,
    {
        let ghost before = group_views(groups@);
        let e = albums[i].duplicate();
        assert(e@ == av[i as int]);
        if albums[i].artist == artist {
            run.push(e);
            assert(entry_views(run@) =~= entry_views(all_but_last(run@)).push(av[i as int]));
        } else {
            let g = ArtistGroup { artist, albums: run };
            groups.push(g);
            assert(group_views(groups@) =~= before.push(g@));
            assert(group_views(groups@).drop_last() =~= before);
            artist = albums[i].artist.clone();
            run = Vec::new();
            run.push(e);
        }
        assert(av.take(i + 1) =~= av.take(i as int).push(av[i as int]));
        i = i + 1;
    }
    let ghost before = group_views(groups@);
    let g = ArtistGroup { artist, albums: run };
    groups.push(g);
    assert(group_views(groups@) =~= before.push(g@));
    assert(group_views(groups@).drop_last() =~= before);
    assert(av.take(albums.len() as int) =~= av);
    groups
}

/// All but the last element.
spec fn all_but_last(run: Seq<AlbumEntry>) -> Seq<AlbumEntry> {
    run.drop_last()
}

/// The key by which the page tells albums apart: `artist/album`.
pub open spec fn album_key_spec(e: AlbumEntryView) -> Seq<char> {
    join_spec(e.artist, e.album)
}

/// The key by which the page tells albums apart: `artist/album`.
pub fn album_key(entry: &AlbumEntry) -> (r: String)
    ensures
        r@ == album_key_spec(entry@),
{
    join(entry.artist.as_str(), entry.album.as_str())
}

/// The word after an album's track count.
pub fn track_label(track_count: usize) -> (r: &'static str)
    ensures
        r@ == if track_count == 1 {
            "track"@
        } else {
            "tracks"@
        },
{
    if track_count == 1 {
        "track"
    } else {
        "tracks"
    }
}

/// The text of an optional string.
pub open spec fn opt_text(o: Option<String>) -> Option<Seq<char>> {
    match o {
        Some(s) => Some(s@),
        None => None,
    }
}

/// The text of an optional album.
pub open spec fn opt_entry(o: Option<AlbumEntry>) -> Option<AlbumEntryView> {
    match o {
        Some(e) => Some(e@),
        None => None,
    }
}

/// What the library page holds: the albums, the error shown, the album
/// being deleted or consolidated (by key), the album whose deletion awaits
/// confirmation, and the order chosen.
pub struct LibraryPageState {
    pub albums: Vec<AlbumEntry>,
    pub error: String,
    pub deleting: Option<String>,
    pub confirm_delete: Option<AlbumEntry>,
    pub consolidating: Option<String>,
    pub sort_mode: SortMode,
}

/// The mathematical value of the page state.
pub struct LibraryPageView {
    pub albums: Seq<AlbumEntryView>,
    pub error: Seq<char>,
    pub deleting: Option<Seq<char>>,
    pub confirm_delete: Option<AlbumEntryView>,
    pub consolidating: Option<Seq<char>>,
    pub sort_mode: SortMode,
}

impl View for LibraryPageState {
    type V = LibraryPageView;

    open spec fn view(&self) -> LibraryPageView {
        LibraryPageView {
            albums: entry_views(self.albums@),
            error: self.error@,
            deleting: opt_text(self.deleting),
            confirm_delete: opt_entry(self.confirm_delete),
            consolidating: opt_text(self.consolidating),
            sort_mode: self.sort_mode,
        }
    }
}

/// The call that deletes an album: its directory, artist and title.
pub struct DeleteRequest {
    pub album_path: String,
    pub artist: String,
    pub album: String,
}

/// The call that consolidates an album: its artist and title.
pub struct ConsolidateRequest {
    pub artist: String,
    pub album: String,
}

/// How the page lays out its albums.
pub enum LibraryLayout {
    /// No albums: the page invites to download some.
    Empty,
    /// Grouped under their artists (when ordered by artist).
    ByArtist(Vec<ArtistGroup>),
    /// One list (when ordered by album or by date added).
    Flat(Vec<AlbumEntry>),
}

/// What one album's row shows: its key, whether it is being deleted or
/// consolidated, the word after its track count, the texts of its two
/// buttons, and whether they are disabled.
pub struct AlbumRow {
    pub key: String,
    pub is_deleting: bool,
    pub is_consolidating: bool,
    pub track_label: &'static str,
    pub consolidate_label: &'static str,
    pub delete_label: &'static str,
    pub disabled: bool,
}

/// `o` holds the text `t`.
pub open spec fn holds(o: Option<Seq<char>>, t: Seq<char>) -> bool {
    o == Some(t)
}

/// Whether the optional string holds `key`.
fn holds_key(o: &Option<String>, key: &String) -> (r: bool)
    ensures
        r == holds(opt_text(*o), key@),
{
    match o {
        Some(s) => *s == *key,
        None => false,
    }
}

impl LibraryPageState {
    /// The page before anything is loaded: no albums, no error, nothing
    /// pending, ordered by artist.
    pub fn new() -> (r: LibraryPageState)
        ensures
            r@ == (LibraryPageView {
                albums: Seq::empty(),
                error: Seq::empty(),
                deleting: None,
                confirm_delete: None,
                consolidating: None,
                sort_mode: SortMode::Artist,
            }),
    {
        let r = LibraryPageState {
            albums: Vec::new(),
            error: String::new(),
            deleting: None,
            confirm_delete: None,
            consolidating: None,
            sort_mode: SortMode::Artist,
        };
        assert(r@.albums =~= Seq::<AlbumEntryView>::empty());
        r
    }

    /// The answer to loading the library: its albums, or the error (its
    /// message after "Failed to load library: "); the rest is unchanged.
    pub fn library_loaded(&mut self, result: Result<Vec<AlbumEntry>, String>)
        ensures
            match result {
                Ok(albums) => final(self)@ == (LibraryPageView {
                    albums: entry_views(albums@),
                    ..old(self)@
                }),
                Err(message) => final(self)@ == (LibraryPageView {
                    error: "Failed to load library: "@ + message@,
                    ..old(self)@
                }),
            },
    {
        match result {
            Ok(albums) => {
                self.albums = albums;
            },
            Err(message) => {
                self.error = String::from_str("Failed to load library: ").concat(message.as_str());
            },
        }
    }

    /// Chooses the order of the albums.
    pub fn choose_sort(&mut self, mode: SortMode)
        ensures
            final(self)@ == (LibraryPageView { sort_mode: mode, ..old(self)@ }),
    {
        self.sort_mode = mode;
    }

    /// Asks for confirmation before deleting `entry`.
    pub fn ask_delete(&mut self, entry: AlbumEntry)
        ensures
            final(self)@ == (LibraryPageView { confirm_delete: Some(entry@), ..old(self)@ }),
    {
        self.confirm_delete = Some(entry);
    }

    /// Dismisses the confirmation.
    pub fn cancel_delete(&mut self)
        ensures
            final(self)@ == (LibraryPageView { confirm_delete: None, ..old(self)@ }),
    {
        self.confirm_delete = None;
    }

    /// Starts deleting `entry`: marks it as being deleted, clears the
    /// error, and returns the call to make.
    fn start_delete(&mut self, entry: &AlbumEntry) -> (call: DeleteRequest)
        ensures
            final(self)@ == (LibraryPageView {
                deleting: Some(album_key_spec(entry@)),
                error: Seq::empty(),
                ..old(self)@
            }),
            call.album_path@ == entry@.album_path,
            call.artist@ == entry@.artist,
            call.album@ == entry@.album,
    {
        self.deleting = Some(album_key(entry));
        self.error = String::new();
        DeleteRequest {
            album_path: entry.album_path.clone(),
            artist: entry.artist.clone(),
            album: entry.album.clone(),
        }
    }

    /// Confirms the pending deletion: when an album awaits confirmation,
    /// starts deleting it (it is marked as being deleted, the error is
    /// cleared) and returns the call to make; otherwise does nothing. A
    /// deletion starts from the confirmed album only.
    pub fn delete_confirmed(&mut self) -> (call: Option<DeleteRequest>)
        ensures
            match old(self).confirm_delete {
                Some(e) => call matches Some(c) && c.album_path@ == e@.album_path && c.artist@
                    == e@.artist && c.album@ == e@.album && final(self)@ == (LibraryPageView {
                    deleting: Some(album_key_spec(e@)),
                    error: Seq::empty(),
                    ..old(self)@
                }),
                None => call is None && final(self)@ == old(self)@,
            },
    {
        match &self.confirm_delete {
            Some(e) => {
                let entry = e.duplicate();
                let call = self.start_delete(&entry);
                Some(call)
            },
            None => None,
        }
    }

    /// The answer to a deletion: on success the library is to be loaded
    /// again (`true`); on failure the error shows its message after
    /// "Failed to delete: ".
    pub fn delete_answered(&mut self, result: Result<(), String>) -> (reload: bool)
        ensures
            reload == result is Ok,
            match result {
                Ok(_) => final(self)@ == old(self)@,
                Err(message) => final(self)@ == (LibraryPageView {
                    error: "Failed to delete: "@ + message@,
                    ..old(self)@
                }),
            },
    {
        match result {
            Ok(_) => true,
            Err(message) => {
                self.error = String::from_str("Failed to delete: ").concat(message.as_str());
                false
            },
        }
    }

    /// Ends a deletion: nothing is being deleted and the confirmation is
    /// closed.
    pub fn delete_settled(&mut self)
        ensures
            final(self)@ == (LibraryPageView {
                deleting: None,
                confirm_delete: None,
                ..old(self)@
            }),
    {
        self.deleting = None;
        self.confirm_delete = None;
    }

    /// Starts consolidating `entry`: marks it as being consolidated, clears
    /// the error, and returns the call to make.
    pub fn start_consolidate(&mut self, entry: &AlbumEntry) -> (call: ConsolidateRequest)
        ensures
            final(self)@ == (LibraryPageView {
                consolidating: Some(album_key_spec(entry@)),
                error: Seq::empty(),
                ..old(self)@
            }),
            call.artist@ == entry@.artist,
            call.album@ == entry@.album,
    {
        self.consolidating = Some(album_key(entry));
        self.error = String::new();
        ConsolidateRequest { artist: entry.artist.clone(), album: entry.album.clone() }
    }

    /// The answer to a consolidation: on success the library is to be
    /// loaded again (`true`); on failure the error shows its message after
    /// "Failed to consolidate: ".
    pub fn consolidate_answered(&mut self, result: Result<(), String>) -> (reload: bool)
        ensures
            reload == result is Ok,
            match result {
                Ok(_) => final(self)@ == old(self)@,
                Err(message) => final(self)@ == (LibraryPageView {
                    error: "Failed to consolidate: "@ + message@,
                    ..old(self)@
                }),
            },
    {
        match result {
            Ok(_) => true,
            Err(message) => {
                self.error = String::from_str("Failed to consolidate: ").concat(message.as_str());
                false
            },
        }
    }

    /// Ends a consolidation: nothing is being consolidated.
    pub fn consolidate_settled(&mut self)
        ensures
            final(self)@ == (LibraryPageView { consolidating: None, ..old(self)@ }),
    {
        self.consolidating = None;
    }

    /// Whether the page shows its error.
    pub fn shows_error(&self) -> (r: bool)
        ensures
            r == (self@.error.len() > 0),
    {
        !self.error.as_str().is_empty()
    }

    /// Whether `mode` is the order chosen (its button is highlighted).
    pub fn is_sorted_by(&self, mode: SortMode) -> (r: bool)
        ensures
            r == (self.sort_mode == mode),
    {
        match (self.sort_mode, mode) {
            (SortMode::Artist, SortMode::Artist) => true,
            (SortMode::Album, SortMode::Album) => true,
            (SortMode::DateAdded, SortMode::DateAdded) => true,
            _ => false,
        }
    }

    /// The text of the button that confirms a deletion.
    pub fn confirm_label(&self) -> (r: &'static str)
        ensures
            r@ == if self.deleting is Some {
                "Deleting..."@
            } else {
                "Delete"@
            },
    {
        if self.deleting.is_some() {
            "Deleting..."
        } else {
            "Delete"
        }
    }

    /// What the row of `entry` shows.
    pub fn album_row(&self, entry: &AlbumEntry) -> (r: AlbumRow)
        ensures
            r.key@ == album_key_spec(entry@),
            r.is_deleting == holds(self@.deleting, album_key_spec(entry@)),
            r.is_consolidating == holds(self@.consolidating, album_key_spec(entry@)),
            r.track_label@ == if entry.track_count == 1 {
                "track"@
            } else {
                "tracks"@
            },
            r.consolidate_label@ == if r.is_consolidating {
                "Fixing..."@
            } else {
                "Fix in Navidrome"@
            },
            r.delete_label@ == if r.is_deleting {
                "Deleting..."@
            } else {
                "Delete"@
            },
            r.disabled == (r.is_deleting || r.is_consolidating),
    {
        let key = album_key(entry);
        let is_deleting = holds_key(&self.deleting, &key);
        let is_consolidating = holds_key(&self.consolidating, &key);
        AlbumRow {
            key,
            is_deleting,
            is_consolidating,
            track_label: track_label(entry.track_count),
            consolidate_label: if is_consolidating {
                "Fixing..."
            } else {
                "Fix in Navidrome"
            },
            delete_label: if is_deleting {
                "Deleting..."
            } else {
                "Delete"
            },
            disabled: is_deleting || is_consolidating,
        }
    }

    /// How the page lays out its albums: nothing to list, grouped by artist
    /// (ordered by artist), or one list in the chosen order.
    pub fn layout(&self) -> (r: LibraryLayout)
        ensures
            match r {
                LibraryLayout::Empty => self@.albums.len() == 0,
                LibraryLayout::ByArtist(groups) => self@.albums.len() > 0 && self.sort_mode
                    == SortMode::Artist && exists|sorted: Seq<AlbumEntryView>|
                    #![trigger sorted_as(SortMode::Artist, self@.albums, sorted)]
                    sorted_as(SortMode::Artist, self@.albums, sorted) && groups_runs(
                        sorted,
                        group_views(groups@),
                    ),
                LibraryLayout::Flat(sorted) => self@.albums.len() > 0 && self.sort_mode
                    != SortMode::Artist && sorted_as(
                    self.sort_mode,
                    self@.albums,
                    entry_views(sorted@),
                ),
            },
    {
        let sorted = sort_albums(&self.albums, self.sort_mode);
        proof {
            let order = choose|order: Seq<usize>|
                sorts_stably(album_sort_keys(self.sort_mode, self@.albums), order) && entry_views(
                    sorted@,
                ) == arranged(self@.albums, order);
            assert(order.len() == self@.albums.len());
            assert(entry_views(sorted@).len() == sorted.len());
        }
        if sorted.len() == 0 {
            return LibraryLayout::Empty;
        }
        match self.sort_mode {
            SortMode::Artist => {
                let groups = group_by_artist(&sorted);
                LibraryLayout::ByArtist(groups)
            },
            _ => LibraryLayout::Flat(sorted),
        }
    }
}

/// What the user does on the page, as far as the pending confirmation of a
/// deletion is concerned: a click on an album's Delete (`ask_delete`), the
/// dialog's Cancel (`cancel_delete`), the end of a deletion
/// (`delete_settled`), and anything else (every other method leaves the
/// pending confirmation as it is).
pub enum PageEvent {
    AskDelete(AlbumEntryView),
    CancelDelete,
    DeleteSettled,
    Other,
}

/// The pending confirmation after one event.
pub open spec fn confirm_step(c: Option<AlbumEntryView>, e: PageEvent) -> Option<AlbumEntryView> {
    match e {
        PageEvent::AskDelete(a) => Some(a),
        PageEvent::CancelDelete => None,
        PageEvent::DeleteSettled => None,
        PageEvent::Other => c,
    }
}

/// The album whose deletion awaits confirmation after a sequence of events
/// on a new page: the album of the last click on Delete that no Cancel and
/// no finished deletion followed.
pub open spec fn pending_delete(events: Seq<PageEvent>) -> Option<AlbumEntryView>
    decreases events.len(),
{
    if events.len() == 0 {
        None
    } else {
        match events.last() {
            PageEvent::AskDelete(a) => Some(a),
            PageEvent::CancelDelete => None,
            PageEvent::DeleteSettled => None,
            PageEvent::Other => pending_delete(events.drop_last()),
        }
    }
}

/// Deletion needs confirmation, over any sequence of events: on a page that
/// starts new and changes its pending confirmation as the methods state
/// (`confirm_step`), the album awaiting confirmation is the album of the
/// last click on Delete that no Cancel and no finished deletion followed.
/// Since `delete_confirmed` makes a call exactly for the album awaiting
/// confirmation, every deletion call is for such an album, and a click on
/// Delete alone, or followed by Cancel, makes none.
pub proof fn lemma_deletion_needs_confirmation(
    states: Seq<LibraryPageView>,
    events: Seq<PageEvent>,
)
    requires
        states.len() == events.len() + 1,
        states[0].confirm_delete is None,
        forall|k: int|
            0 <= k < events.len() ==> #[trigger] states[k + 1].confirm_delete == confirm_step(
                states[k].confirm_delete,
                events[k],
            ),
    ensures
        states.last().confirm_delete == pending_delete(events),
    decreases events.len(),
{
    if events.len() > 0 {
        let n = events.len();
        lemma_deletion_needs_confirmation(states.drop_last(), events.drop_last());
        assert(states.drop_last().last() == states[n - 1]);
        assert(states[(n - 1) + 1].confirm_delete == confirm_step(
            states[n - 1].confirm_delete,
            events[n - 1],
        ));
        assert(events.last() == events[n - 1]);
    }
}

} // verus!
