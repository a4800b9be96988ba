//! Consolidation of an album whose tracks beets placed in several
//! directories: which directories hold its tracks, which of them is kept,
//! and what the files moved into it are called.
use vstd::prelude::*;
use crate::order::{KeyView, SortKey, arranged, key_views, sorts_stably, stable_order};
use crate::filenames::{IncomingFile, incoming_views};
use crate::paths::{file_name, is_below, is_plain_dir, is_plain_file_path, is_plain_name, is_absolute,
    join, join_spec, last_slash, lemma_last_slash_of_join, slash, path_file_name, library_relative, library_relative_spec, parent_dir, path_parent,
    track_path, track_path_spec};
use crate::text::text_views;
use crate::tally::{Keyed, KeyedView, count_of, first_of, keyed_views, key_at, tally, tallies};

verus! {

/// A directory holding tracks of an album: its absolute path, its path
/// relative to the library directory, and how many of the album's tracks
/// it holds.
#[derive(Debug, PartialEq, Eq)]
pub struct DirCount {
    pub abs_dir: String,
    pub rel_dir: String,
    pub track_count: usize,
}

/// The mathematical value of a directory count.
pub struct DirCountView {
    pub abs_dir: Seq<char>,
    pub rel_dir: Seq<char>,
    pub track_count: usize,
}

impl View for DirCount {
    type V = DirCountView;

    open spec fn view(&self) -> DirCountView {
        DirCountView { abs_dir: self.abs_dir@, rel_dir: self.rel_dir@, track_count: self.track_count }
    }
}

impl DirCount {
    /// A copy of this count.
    pub fn duplicate(&self) -> (r: DirCount)
        ensures
            r@ == self@,
    {
        DirCount {
            abs_dir: self.abs_dir.clone(),
            rel_dir: self.rel_dir.clone(),
            track_count: self.track_count,
        }
    }
}

/// The views of a sequence of directory counts.
pub open spec fn dir_views(dirs: Seq<DirCount>) -> Seq<DirCountView> {
    dirs.map_values(|d: DirCount| d@)
}

/// The directory of a track stored by beets as `stored`: the parent of its
/// absolute path, or the empty text when that has no parent.
pub open spec fn track_dir_spec(library_dir: Seq<char>, stored: Seq<char>) -> Seq<char> {
    match path_parent(track_path_spec(library_dir, stored)) {
        Some(d) => d,
        None => Seq::empty(),
    }
}

/// The tracks keyed by directory.
pub open spec fn dir_keys(library_dir: Seq<char>, paths: Seq<Seq<char>>) -> Seq<KeyedView> {
    paths.map_values(|p: Seq<char>| (track_dir_spec(library_dir, p), Seq::<char>::empty(), 0u64))
}

/// `dirs` lists the directories of the tracks stored as `paths`: one entry
/// per distinct directory, in the order in which they first occur, each
/// with its path relative to the library and its number of tracks.
pub open spec fn lists_dirs(
    library_dir: Seq<char>,
    paths: Seq<Seq<char>>,
    dirs: Seq<DirCountView>,
) -> bool {
    let keys = dir_keys(library_dir, paths);
    &&& forall|j: int|
        #![trigger dirs[j]]
        0 <= j < dirs.len() ==> {
            let d = dirs[j];
            &&& d.track_count > 0
            &&& d.track_count == count_of(keys, d.abs_dir, Seq::empty())
            &&& d.rel_dir == library_relative_spec(d.abs_dir, library_dir)
        }
    &&& forall|j: int, l: int|
        0 <= j < l < dirs.len() ==> first_of(keys, dirs[j].abs_dir, Seq::empty()) < first_of(
            keys,
            dirs[l].abs_dir,
            Seq::empty(),
        )
    &&& forall|i: int|
        #![trigger paths[i]]
        0 <= i < paths.len() ==> exists|j: int|
            0 <= j < dirs.len() && #[trigger] dirs[j].abs_dir == track_dir_spec(
                library_dir,
                paths[i],
            )
}

/// The directories of the tracks stored as `paths`, with their counts.
pub fn directory_tallies(library_dir: &str, paths: &Vec<String>) -> (dirs: Vec<DirCount>)
    ensures
        lists_dirs(library_dir@, text_views(paths@), dir_views(dirs@)),
{
    let ghost pv = text_views(paths@);
    let ghost keys = dir_keys(library_dir@, pv);
    let mut keyed: Vec<Keyed> = Vec::new();
    let mut i: usize = 0;
    while i < paths.len()
        invariant
            i <= paths.len(),
            pv == text_views(paths@),
            pv.len() == paths.len(),
            keys == dir_keys(library_dir@, pv),
            keyed.len() == i,
            keyed_views(keyed@) =~= keys.take(i as int),
        decreases paths.len() - i,
    {
        let full = track_path(library_dir, paths[i].as_str());
        let dir = match parent_dir(full.as_str()) {
            Some(d) => d,
            None => String::new(),
        };
        keyed.push(Keyed { primary: dir, secondary: String::new(), value: 0 });
        assert(pv[i as int] == paths@[i as int]@);
        assert(keyed@[i as int]@ == keys[i as int]);
        assert(keyed_views(keyed@) =~= keys.take(i + 1));
        i = i + 1;
    }
    assert(keys.take(paths.len() as int) =~= keys);
    let groups = tally(&keyed);
    assert(tallies(keys, groups@));
    let mut dirs: Vec<DirCount> = Vec::new();
    let mut j: usize = 0;
    while j < groups.len()
        invariant
            keys == dir_keys(library_dir@, pv),
            keys.len() == paths.len(),
            keyed_views(keyed@) == keys,
            tallies(keys, groups@),
            j <= groups.len(),
            dirs.len() == j,
            forall|l: int|
                #![trigger dirs@[l]]
                0 <= l < j ==> {
                    let t = groups@[l];
                    &&& dirs@[l]@.abs_dir == keys[t.first as int].0
                    &&& dirs@[l]@.rel_dir == library_relative_spec(
                        keys[t.first as int].0,
                        library_dir@,
                    )
                    &&& dirs@[l]@.track_count == t.count
                },
        decreases groups.len() - j,
    {
        let t = groups[j];
        assert(t == groups@[j as int]);
        assert(keyed@[t.first as int]@ == keys[t.first as int]);
        let abs = keyed[t.first].primary.clone();
        let rel = library_relative(abs.as_str(), library_dir);
        dirs.push(DirCount { abs_dir: abs, rel_dir: rel, track_count: t.count });
        j = j + 1;
    }
    proof {
        let dv = dir_views(dirs@);
        assert forall|l: int| #![trigger dv[l]] 0 <= l < dv.len() implies {
            let d = dv[l];
            &&& d.track_count > 0
            &&& d.track_count == count_of(keys, d.abs_dir, Seq::empty())
            &&& d.rel_dir == library_relative_spec(d.abs_dir, library_dir@)
        } by {
            let t = groups@[l];
            assert(dirs@[l]@ == dv[l]);
            assert(keys[t.first as int].1 == Seq::<char>::empty());
            assert(key_at(keys, t.first as int) == (dv[l].abs_dir, Seq::<char>::empty()));
            crate::tally::lemma_first_occurrence(keys, dv[l].abs_dir, Seq::empty());
            assert(crate::tally::has_key(keys[t.first as int], dv[l].abs_dir, Seq::empty()));
        }
        assert forall|l: int, m: int| 0 <= l < m < dv.len() implies first_of(
            keys,
            dv[l].abs_dir,
            Seq::empty(),
        ) < first_of(keys, dv[m].abs_dir, Seq::empty()) by {
            assert(dirs@[l]@ == dv[l]);
            assert(dirs@[m]@ == dv[m]);
            assert(keys[groups@[l].first as int].1 == Seq::<char>::empty());
            assert(keys[groups@[m].first as int].1 == Seq::<char>::empty());
            assert(key_at(keys, groups@[l].first as int) == (dv[l].abs_dir, Seq::<char>::empty()));
            assert(key_at(keys, groups@[m].first as int) == (dv[m].abs_dir, Seq::<char>::empty()));
        }
        assert forall|x: int| #![trigger pv[x]] 0 <= x < pv.len() implies exists|l: int|
            0 <= l < dv.len() && #[trigger] dv[l].abs_dir == track_dir_spec(library_dir@, pv[x]) by {
            assert(keys[x].0 == track_dir_spec(library_dir@, pv[x]));
            let l = choose|l: int|
                0 <= l < groups@.len() && #[trigger] key_at(keys, groups@[l].first as int)
                    == key_at(keys, x);
            assert(dirs@[l]@ == dv[l]);
        }
    }
    dirs
}

/// The sort key of a directory: more tracks sort first.
pub open spec fn dir_rank_key(d: DirCountView) -> KeyView {
    (Seq::empty(), Seq::empty(), (u64::MAX - d.track_count) as u64)
}

/// The sort keys of a sequence of directories.
pub open spec fn dir_rank_keys(dirs: Seq<DirCountView>) -> Seq<KeyView> {
    dirs.map_values(|d: DirCountView| dir_rank_key(d))
}

/// The directories, those with more tracks first, directories with as many
/// tracks in their original order.
pub fn rank_by_track_count(dirs: &Vec<DirCount>) -> (ranked: Vec<DirCount>)
    ensures
        exists|order: Seq<usize>|
            sorts_stably(dir_rank_keys(dir_views(dirs@)), order) && dir_views(ranked@) == arranged(
                dir_views(dirs@),
                order,
            ),
{
    let ghost dv = dir_views(dirs@);
    let mut keys: Vec<SortKey> = Vec::new();
    let mut i: usize = 0;
    while i < dirs.len()
        invariant
            i <= dirs.len(),
            dv == dir_views(dirs@),
            dv.len() == dirs.len(),
            keys.len() == i,
            key_views(keys@) =~= dir_rank_keys(dv).take(i as int),
        decreases dirs.len() - i,
    {
        keys.push(
            SortKey {
                major: Vec::new(),
                minor: Vec::new(),
                rank: u64::MAX - dirs[i].track_count as u64,
            },
        );
        assert(dv[i as int] == dirs@[i as int]@);
        assert(keys@[i as int]@ =~= dir_rank_keys(dv)[i as int]);
        assert(key_views(keys@) =~= dir_rank_keys(dv).take(i + 1));
        i = i + 1;
    }
    assert(dir_rank_keys(dv).take(dirs.len() as int) =~= dir_rank_keys(dv));
    let order = stable_order(&keys);
    let mut ranked: Vec<DirCount> = Vec::new();
    let mut k: usize = 0;
    while k < order.len()
        invariant
            dv == dir_views(dirs@),
            dv.len() == dirs.len(),
            sorts_stably(dir_rank_keys(dv), order@),
            k <= order.len(),
            ranked.len() == k,
            dir_views(ranked@) =~= arranged(dv, order@).take(k as int),
        decreases order.len() - k,
    {
        let d = dirs[order[k]].duplicate();
        ranked.push(d);
        assert(dir_views(ranked@) =~= arranged(dv, order@).take(k + 1));
        k = k + 1;
    }
    assert(arranged(dv, order@).take(order.len() as int) =~= arranged(dv, order@));
    ranked
}

/// What consolidating an album does: the directory that keeps the album
/// (the one with the most tracks) and the directories whose files move into
/// it.
pub struct ConsolidationPlan {
    pub canonical: DirCount,
    pub sources: Vec<DirCount>,
}

/// The directories of the tracks stored as `paths`, ranked: most tracks
/// first, ties in the order of first occurrence.
pub open spec fn ranks_dirs(
    library_dir: Seq<char>,
    paths: Seq<Seq<char>>,
    ranked: Seq<DirCountView>,
) -> bool {
    exists|dirs: Seq<DirCountView>, order: Seq<usize>|
        lists_dirs(library_dir, paths, dirs) && sorts_stably(dir_rank_keys(dirs), order) && ranked
            == arranged(dirs, order)
}

/// Decides how to consolidate an album whose tracks beets stores as
/// `paths`: nothing to do (`None`) when they all lie in one directory (or
/// there are none); otherwise keep the directory with the most tracks (the
/// first one among equals) and move the others into it.
pub fn consolidation_plan(library_dir: &str, paths: &Vec<String>) -> (r: Option<ConsolidationPlan>)
    ensures
        exists|ranked: Seq<DirCountView>|
            #![trigger ranks_dirs(library_dir@, text_views(paths@), ranked)]
            ranks_dirs(library_dir@, text_views(paths@), ranked) && match r {
                None => ranked.len() <= 1,
                Some(plan) => ranked.len() > 1 && plan.canonical@ == ranked[0] && dir_views(
                    plan.sources@,
                ) == ranked.skip(1),
            },
        r matches Some(plan) ==> forall|k: int|
            0 <= k < plan.sources.len() ==> #[trigger] plan.sources@[k].track_count
                <= plan.canonical.track_count,
        r matches Some(plan) ==> forall|k: int|
            0 <= k < plan.sources.len() ==> #[trigger] plan.sources@[k].abs_dir@
                != plan.canonical.abs_dir@,
{
    let dirs = directory_tallies(library_dir, paths);
    let ranked = rank_by_track_count(&dirs);
    let ghost rv = dir_views(ranked@);
    assert(ranks_dirs(library_dir@, text_views(paths@), rv));
    if ranked.len() <= 1 {
        return None;
    }
    proof {
        let order = choose|order: Seq<usize>|
            sorts_stably(dir_rank_keys(dir_views(dirs@)), order) && dir_views(ranked@) == arranged(
                dir_views(dirs@),
                order,
            );
        let dv = dir_views(dirs@);
        assert forall|k: int| 0 < k < rv.len() implies #[trigger] rv[k].track_count
            <= rv[0].track_count by {
            assert(!crate::order::key_lt(
                dir_rank_keys(dv)[order[k] as int],
                dir_rank_keys(dv)[order[0] as int],
            ));
            assert(rv[k] == dv[order[k] as int]);
            assert(rv[0] == dv[order[0] as int]);
        }
        let keys = dir_keys(library_dir@, text_views(paths@));
        assert forall|k: int| 0 < k < rv.len() implies #[trigger] rv[k].abs_dir != rv[0].abs_dir by {
            assert(rv[k] == dv[order[k] as int]);
            assert(rv[0] == dv[order[0] as int]);
            let a = order[k] as int;
            let b = order[0] as int;
            assert(a != b);
            if a < b {
                assert(first_of(keys, dv[a].abs_dir, Seq::empty()) < first_of(
                    keys,
                    dv[b].abs_dir,
                    Seq::empty(),
                ));
            } else {
                assert(first_of(keys, dv[b].abs_dir, Seq::empty()) < first_of(
                    keys,
                    dv[a].abs_dir,
                    Seq::empty(),
                ));
            }
        }
    }
    let canonical = ranked[0].duplicate();
    let mut sources: Vec<DirCount> = Vec::new();
    let mut k: usize = 1;
    while k < ranked.len()
        invariant
            rv == dir_views(ranked@),
            rv.len() == ranked.len(),
            1 <= k <= ranked.len(),
            sources.len() == k - 1,
            dir_views(sources@) =~= rv.subrange(1, k as int),
        decreases ranked.len() - k,
    {
        let d = ranked[k].duplicate();
        assert(d@ == rv[k as int]);
        sources.push(d);
        assert(dir_views(sources@) =~= rv.subrange(1, k + 1));
        k = k + 1;
    }
    let plan = ConsolidationPlan { canonical, sources };
    assert(dir_views(plan.sources@) =~= rv.skip(1));
    assert forall|k: int| 0 <= k < plan.sources.len() implies #[trigger] plan.sources@[k].track_count
        <= plan.canonical.track_count by {
        assert(plan.sources@[k]@ == dir_views(plan.sources@)[k]);
        assert(rv.skip(1)[k] == rv[k + 1]);
    }
    assert forall|k: int| 0 <= k < plan.sources.len() implies #[trigger] plan.sources@[k].abs_dir@
        != plan.canonical.abs_dir@ by {
        assert(plan.sources@[k]@ == dir_views(plan.sources@)[k]);
        assert(rv.skip(1)[k] == rv[k + 1]);
        assert(rv[k + 1].abs_dir != rv[0].abs_dir);
    }
    Some(plan)
}

/// The number of tracks of the directories, added up.
pub open spec fn total_dir_tracks(dirs: Seq<DirCountView>) -> nat
    decreases dirs.len(),
{
    if dirs.len() == 0 {
        0
    } else {
        total_dir_tracks(dirs.drop_last()) + dirs.last().track_count as nat
    }
}

/// The keys of the directories.
pub open spec fn dir_pairs(dirs: Seq<DirCountView>) -> Seq<(Seq<char>, Seq<char>)> {
    dirs.map_values(|d: DirCountView| (d.abs_dir, Seq::<char>::empty()))
}

proof fn lemma_dir_total_is_sum(keys: Seq<KeyedView>, dirs: Seq<DirCountView>)
    requires
        forall|j: int|
            0 <= j < dirs.len() ==> #[trigger] dirs[j].track_count == count_of(
                keys,
                dirs[j].abs_dir,
                Seq::empty(),
            ),
    ensures
        total_dir_tracks(dirs) == crate::tally::sum_counts(keys, dir_pairs(dirs)),
    decreases dirs.len(),
{
    if dirs.len() > 0 {
        let init = dirs.drop_last();
        assert forall|j: int| 0 <= j < init.len() implies #[trigger] init[j].track_count
            == count_of(keys, init[j].abs_dir, Seq::empty()) by {
            assert(init[j] == dirs[j]);
        }
        lemma_dir_total_is_sum(keys, init);
        assert(dir_pairs(dirs).drop_last() =~= dir_pairs(init));
        assert(dirs.last() == dirs[dirs.len() - 1]);
    }
}

/// Every track lies in exactly one of the directories: their track counts
/// add up to the number of tracks.
pub proof fn lemma_every_track_in_one_dir(
    library_dir: Seq<char>,
    paths: Seq<Seq<char>>,
    dirs: Seq<DirCountView>,
)
    requires
        lists_dirs(library_dir, paths, dirs),
    ensures
        total_dir_tracks(dirs) == paths.len(),
{
    let keys = dir_keys(library_dir, paths);
    let ks = dir_pairs(dirs);
    lemma_dir_total_is_sum(keys, dirs);
    assert forall|j: int, l: int| 0 <= j < l < ks.len() implies ks[j] != ks[l] by {
        assert(first_of(keys, dirs[j].abs_dir, Seq::empty()) < first_of(
            keys,
            dirs[l].abs_dir,
            Seq::empty(),
        ));
    }
    assert forall|i: int| 0 <= i < keys.len() implies ks.contains(
        (#[trigger] keys[i].0, keys[i].1),
    ) by {
        assert(keys[i] == (track_dir_spec(library_dir, paths[i]), Seq::<char>::empty(), 0u64));
        let j = choose|j: int|
            0 <= j < dirs.len() && #[trigger] dirs[j].abs_dir == track_dir_spec(
                library_dir,
                paths[i],
            );
        assert(ks[j] == (keys[i].0, keys[i].1));
    }
    crate::tally::lemma_counts_cover_rows(keys, ks);
}

/// The name of the file of a track stored by beets as `stored`.
pub open spec fn track_file_name_spec(library_dir: Seq<char>, stored: Seq<char>) -> Option<Seq<char>> {
    path_file_name(track_path_spec(library_dir, stored))
}

/// The incoming file `f` is the file named `name` in the directory `dir`.
pub open spec fn is_file_of(f: (Seq<char>, Seq<char>), dir: Seq<char>, name: Option<Seq<char>>) -> bool {
    f.0 == dir && name == Some(f.1)
}

/// A track whose file moves: the path beets stores for it now, the path it
/// will store, the index of the incoming file that is its file, and the
/// directory that holds the track at its new path.
pub struct TrackMove {
    pub old_path: String,
    pub new_path: String,
    pub file: usize,
    pub new_dir: String,
}

/// The path beets stores for a track stored as `stored` once its file is
/// called `name` in the directory that keeps the album: that directory's
/// path (relative to the library directory where it lies below it) and the
/// name, with the library directory in front when the stored path had it in
/// front. (Only the directory part of the stored path changes, as beets
/// records it.)
pub open spec fn moved_path_spec(
    library_dir: Seq<char>,
    canonical_rel: Seq<char>,
    stored: Seq<char>,
    name: Seq<char>,
) -> Seq<char> {
    if (library_dir + slash()).is_prefix_of(stored) {
        join_spec(library_dir, join_spec(canonical_rel, name))
    } else {
        join_spec(canonical_rel, name)
    }
}

/// The usual setting of a consolidation: the library directory starts at
/// the root, and the directory that keeps the album is a plain directory
/// below it, with `canonical_rel` its path relative to the library.
pub open spec fn kept_below_library(
    library_dir: Seq<char>,
    canonical_abs: Seq<char>,
    canonical_rel: Seq<char>,
) -> bool {
    &&& is_absolute(library_dir)
    &&& is_plain_dir(canonical_abs)
    &&& (library_dir + slash()).is_prefix_of(canonical_abs)
    &&& canonical_rel == library_relative_spec(canonical_abs, library_dir)
}

/// `m` describes how the track stored as `stored` moves, given the incoming
/// files, the names chosen for them, and the directory that keeps the
/// album: `None` when its file is not among the incoming files; otherwise
/// its old path, its new path, the first incoming file that is its file,
/// and the directory that holds the track at its new path.
pub open spec fn moves_track(
    library_dir: Seq<char>,
    canonical_rel: Seq<char>,
    files: Seq<(Seq<char>, Seq<char>)>,
    chosen: Seq<Seq<char>>,
    stored: Seq<char>,
    m: Option<(Seq<char>, Seq<char>, usize, Seq<char>)>,
) -> bool {
    let dir = track_dir_spec(library_dir, stored);
    let name = track_file_name_spec(library_dir, stored);
    match m {
        None => forall|f: int| 0 <= f < files.len() ==> !is_file_of(#[trigger] files[f], dir, name),
        Some((old, new, f, new_dir)) => {
            &&& f < files.len()
            &&& is_file_of(files[f as int], dir, name)
            &&& forall|g: int| 0 <= g < f ==> !is_file_of(#[trigger] files[g], dir, name)
            &&& old == stored
            &&& new == moved_path_spec(library_dir, canonical_rel, stored, chosen[f as int])
            &&& new_dir == track_dir_spec(library_dir, new)
        },
    }
}

/// The view of an optional track move.
pub open spec fn move_view(m: Option<TrackMove>) -> Option<(Seq<char>, Seq<char>, usize, Seq<char>)> {
    match m {
        Some(t) => Some((t.old_path@, t.new_path@, t.file, t.new_dir@)),
        None => None,
    }
}

/// In the usual setting, a track whose file gets a plain name lies, at its
/// new path, in the directory that keeps the album.
proof fn lemma_lands_in_kept(
    library_dir: Seq<char>,
    canonical_abs: Seq<char>,
    canonical_rel: Seq<char>,
    stored: Seq<char>,
    name: Seq<char>,
)
    requires
        kept_below_library(library_dir, canonical_abs, canonical_rel),
        is_plain_name(name),
    ensures
        track_path_spec(library_dir, moved_path_spec(library_dir, canonical_rel, stored, name))
            == join_spec(canonical_abs, name),
        is_plain_file_path(join_spec(canonical_abs, name)),
        join_spec(canonical_abs, name).take(last_slash(join_spec(canonical_abs, name)))
            == canonical_abs,
{
    let pre = library_dir + slash();
    let l = pre.len() as int;
    assert(canonical_abs =~= pre + canonical_rel) by {
        assert(canonical_rel =~= canonical_abs.skip(l));
    }
    assert(canonical_abs[l - 1] == '/');
    assert(canonical_abs.len() > l) by {
        if canonical_abs.len() == l {
            assert(canonical_abs.last() == '/');
        }
    }
    assert(canonical_abs[l] != '/') by {
        if canonical_abs[l] == '/' {
            assert(canonical_abs[l - 1] == '/');
        }
    }
    assert(canonical_rel[0] == canonical_abs[l]);
    let new = moved_path_spec(library_dir, canonical_rel, stored, name);
    if pre.is_prefix_of(stored) {
        assert(new =~= join_spec(canonical_abs, name));
        assert(new[0] == library_dir[0]);
    } else {
        assert(new[0] == canonical_rel[0]);
        assert(join_spec(library_dir, new) =~= join_spec(canonical_abs, name));
    }
    lemma_last_slash_of_join(canonical_abs, name);
}

/// How each track of the album moves, given the files moving into the
/// directory that keeps the album (`incoming`, from the other directories)
/// and the names chosen for them: one entry per stored path, `None` for the
/// tracks that stay. Tracks whose files get different names get different
/// new paths; in the usual setting, a moved track whose file gets a plain
/// name lies in the directory that keeps the album.
pub fn track_moves(
    library_dir: &str,
    paths: &Vec<String>,
    canonical: &DirCount,
    incoming: &Vec<IncomingFile>,
    chosen: &Vec<String>,
) -> (moves: Vec<Option<TrackMove>>)
    requires
        chosen.len() == incoming.len(),
    ensures
        moves.len() == paths.len(),
        forall|i: int|
            #![trigger moves@[i]]
            0 <= i < paths.len() ==> moves_track(
                library_dir@,
                canonical.rel_dir@,
                incoming_views(incoming@),
                text_views(chosen@),
                paths@[i]@,
                move_view(moves@[i]),
            ),
        forall|i: int, j: int|
            0 <= i < paths.len() && 0 <= j < paths.len() && moves@[i] is Some && moves@[j] is Some
                && chosen@[moves@[i]->0.file as int]@ != chosen@[moves@[j]->0.file as int]@
                && ((library_dir@ + slash()).is_prefix_of(paths@[i]@) == (library_dir@
                + slash()).is_prefix_of(paths@[j]@)) ==> moves@[i]->0.new_path@
                != moves@[j]->0.new_path@,
        forall|i: int|
            #![trigger moves@[i]]
            0 <= i < paths.len() && moves@[i] is Some && kept_below_library(
                library_dir@,
                canonical.abs_dir@,
                canonical.rel_dir@,
            ) && is_plain_name(chosen@[moves@[i]->0.file as int]@) ==> moves@[i]->0.new_dir@
                == canonical.abs_dir@,
{
    let ghost files = incoming_views(incoming@);
    let mut moves: Vec<Option<TrackMove>> = Vec::new();
    let mut i: usize = 0;
    while i < paths.len()
        invariant
            chosen.len() == incoming.len(),
            files == incoming_views(incoming@),
            files.len() == incoming.len(),
            i <= paths.len(),
            moves.len() == i,
            forall|x: int|
                #![trigger moves@[x]]
                0 <= x < i ==> moves_track(
                    library_dir@,
                    canonical.rel_dir@,
                    files,
                    text_views(chosen@),
                    paths@[x]@,
                    move_view(moves@[x]),
                ),
            forall|x: int|
                #![trigger moves@[x]]
                0 <= x < i && moves@[x] is Some ==> moves@[x]->0.file < chosen.len(),
            forall|x: int|
                #![trigger moves@[x]]
                0 <= x < i && moves@[x] is Some && kept_below_library(
                    library_dir@,
                    canonical.abs_dir@,
                    canonical.rel_dir@,
                ) && is_plain_name(chosen@[moves@[x]->0.file as int]@) ==> moves@[x]->0.new_dir@
                    == canonical.abs_dir@,
        decreases paths.len() - i,
    {
        let full = track_path(library_dir, paths[i].as_str());
        let dir = match parent_dir(full.as_str()) {
            Some(d) => d,
            None => String::new(),
        };
        let name = file_name(full.as_str());
        let ghost d = track_dir_spec(library_dir@, paths@[i as int]@);
        let ghost nm = track_file_name_spec(library_dir@, paths@[i as int]@);
        assert(dir@ == d);
        let mut f: usize = 0;
        let mut found = false;
        while f < incoming.len()
            invariant
                files == incoming_views(incoming@),
                files.len() == incoming.len(),
                f <= incoming.len(),
                dir@ == d,
                match name {
                    Some(n) => nm == Some(n@),
                    None => nm is None,
                },
                found ==> f < incoming.len() && is_file_of(files[f as int], d, nm),
                forall|g: int| 0 <= g < f ==> !is_file_of(#[trigger] files[g], d, nm),
            ensures
                found ==> f < incoming.len() && is_file_of(files[f as int], d, nm),
                !found ==> f == incoming.len(),
                forall|g: int| 0 <= g < f ==> !is_file_of(#[trigger] files[g], d, nm),
            decreases incoming.len() - f,
        {
            assert(files[f as int] == (incoming@[f as int].dir@, incoming@[f as int].name@));
            let same = match &name {
                Some(n) => incoming[f].dir == dir && incoming[f].name == *n,
                None => false,
            };
            if same {
                found = true;
                break;
            }
            f = f + 1;
        }
        if found {
            let tail = join(canonical.rel_dir.as_str(), chosen[f].as_str());
            let new_path = if is_below(paths[i].as_str(), library_dir) {
                join(library_dir, tail.as_str())
            } else {
                tail
            };
            let new_full = track_path(library_dir, new_path.as_str());
            let landed = parent_dir(new_full.as_str());
            proof {
                if kept_below_library(library_dir@, canonical.abs_dir@, canonical.rel_dir@)
                    && is_plain_name(chosen@[f as int]@) {
                    lemma_lands_in_kept(
                        library_dir@,
                        canonical.abs_dir@,
                        canonical.rel_dir@,
                        paths@[i as int]@,
                        chosen@[f as int]@,
                    );
                }
            }
            let new_dir = match landed {
                Some(d) => d,
                None => String::new(),
            };
            let old_path = paths[i].clone();
            assert(old_path@ == paths@[i as int]@);
            moves.push(Some(TrackMove { old_path, new_path, file: f, new_dir }));
        } else {
            moves.push(None);
        }
        i = i + 1;
    }
    proof {
        let lp = library_dir@ + slash();
        assert forall|x: int, y: int|
            0 <= x < paths.len() && 0 <= y < paths.len() && moves@[x] is Some && moves@[y] is Some
                && chosen@[moves@[x]->0.file as int]@ != chosen@[moves@[y]->0.file as int]@
                && (lp.is_prefix_of(paths@[x]@) == lp.is_prefix_of(paths@[y]@))
                implies moves@[x]->0.new_path@ != moves@[y]->0.new_path@ by {
            let a = chosen@[moves@[x]->0.file as int]@;
            let b = chosen@[moves@[y]->0.file as int]@;
            let r = canonical.rel_dir@;
            let px = paths@[x]@;
            let py = paths@[y]@;
            assert(moves_track(library_dir@, r, files, text_views(chosen@), px, move_view(moves@[x])));
            assert(moves_track(library_dir@, r, files, text_views(chosen@), py, move_view(moves@[y])));
            assert(text_views(chosen@)[moves@[x]->0.file as int] == a);
            assert(text_views(chosen@)[moves@[y]->0.file as int] == b);
            let ta = join_spec(r, a);
            let tb = join_spec(r, b);
            let na = moved_path_spec(library_dir@, r, px, a);
            let nb = moved_path_spec(library_dir@, r, py, b);
            if na == nb {
                if lp.is_prefix_of(px) {
                    assert(na.skip(lp.len() as int) =~= ta);
                    assert(nb.skip(lp.len() as int) =~= tb);
                }
                assert(ta == tb);
                assert(ta.skip((r.len() + 1) as int) =~= a);
                assert(tb.skip((r.len() + 1) as int) =~= b);
            }
        }
    }
    moves
}

/// Nothing is left to consolidate once every track of the album lies in
/// one directory: the ranked directories are at most one, so
/// `consolidation_plan` returns `None` and moves nothing.
pub proof fn lemma_one_dir_nothing_to_do(
    library_dir: Seq<char>,
    paths: Seq<Seq<char>>,
    ranked: Seq<DirCountView>,
)
    requires
        ranks_dirs(library_dir, paths, ranked),
        forall|i: int, j: int|
            0 <= i < paths.len() && 0 <= j < paths.len() ==> track_dir_spec(library_dir, paths[i])
                == track_dir_spec(library_dir, paths[j]),
    ensures
        ranked.len() <= 1,
{
    let (dirs, order) = choose|dirs: Seq<DirCountView>, order: Seq<usize>|
        lists_dirs(library_dir, paths, dirs) && sorts_stably(dir_rank_keys(dirs), order) && ranked
            == arranged(dirs, order);
    let keys = dir_keys(library_dir, paths);
    if dirs.len() >= 2 {
        assert forall|j: int| 0 <= j < 2 implies #[trigger] dirs[j].abs_dir == track_dir_spec(
            library_dir,
            paths[0],
        ) by {
            let d = dirs[j];
            assert(d.track_count > 0);
            crate::tally::lemma_first_occurrence(keys, d.abs_dir, Seq::empty());
            let i = choose|i: int|
                0 <= i < keys.len() && crate::tally::has_key(#[trigger] keys[i], d.abs_dir, Seq::empty());
            assert(keys[i].0 == track_dir_spec(library_dir, paths[i]));
        }
        assert(first_of(keys, dirs[0].abs_dir, Seq::empty()) < first_of(
            keys,
            dirs[1].abs_dir,
            Seq::empty(),
        ));
    }
}

/// A second consolidation moves nothing: when every track that moved lies,
/// at its new path, in the directory that keeps the album (as
/// `track_moves` guarantees in the usual setting) and every track that did
/// not move already lay there, the tracks' paths afterwards all lie in one
/// directory, so the ranked directories are at most one and
/// `consolidation_plan` returns `None`.
pub proof fn lemma_second_consolidation_does_nothing(
    library_dir: Seq<char>,
    paths: Seq<Seq<char>>,
    moves: Seq<Option<(Seq<char>, Seq<char>, usize, Seq<char>)>>,
    kept: Seq<char>,
    after: Seq<Seq<char>>,
    ranked: Seq<DirCountView>,
)
    requires
        moves.len() == paths.len(),
        after.len() == paths.len(),
        forall|i: int|
            0 <= i < paths.len() ==> match #[trigger] moves[i] {
                Some((old, new, f, new_dir)) => after[i] == new && new_dir == track_dir_spec(
                    library_dir,
                    new,
                ) && new_dir == kept,
                None => after[i] == paths[i] && track_dir_spec(library_dir, paths[i]) == kept,
            },
        ranks_dirs(library_dir, after, ranked),
    ensures
        ranked.len() <= 1,
{
    assert forall|i: int| 0 <= i < after.len() implies track_dir_spec(library_dir, #[trigger] after[i])
        == kept by {
        match moves[i] {
            Some(_) => {},
            None => {},
        }
    }
    lemma_one_dir_nothing_to_do(library_dir, after, ranked);
}

} // verus!
