use soulbeet_library::consolidate::{
    consolidation_plan, directory_tallies, rank_by_track_count, track_moves, DirCount,
};
use soulbeet_library::filenames::{choose_names, decimal_text, IncomingFile};
use std::path::Path;

fn paths(v: &[&str]) -> Vec<String> {
    v.iter().map(|s| s.to_string()).collect()
}

fn dir(abs: &str, rel: &str, n: usize) -> DirCount {
    DirCount { abs_dir: abs.to_string(), rel_dir: rel.to_string(), track_count: n }
}

#[test]
fn tallies_directories_of_tracks() {
    let p = paths(&[
        "Artist/Album/01.flac",
        "Artist/Album (Disc 2)/01.flac",
        "Artist/Album/02.flac",
        "/other/place/03.flac",
    ]);
    let dirs = directory_tallies("/app/library", &p);
    assert_eq!(
        dirs,
        vec![
            dir("/app/library/Artist/Album", "Artist/Album", 2),
            dir("/app/library/Artist/Album (Disc 2)", "Artist/Album (Disc 2)", 1),
            dir("/other/place", "/other/place", 1),
        ]
    );
}

#[test]
fn ranks_most_tracks_first_ties_in_order() {
    let dirs = vec![dir("/a", "a", 1), dir("/b", "b", 3), dir("/c", "c", 1), dir("/d", "d", 3)];
    let ranked = rank_by_track_count(&dirs);
    assert_eq!(
        ranked,
        vec![dir("/b", "b", 3), dir("/d", "d", 3), dir("/a", "a", 1), dir("/c", "c", 1)]
    );
}

#[test]
fn plan_keeps_the_largest_directory() {
    let p = paths(&["A/X/1.mp3", "A/X [2]/1.mp3", "A/X [2]/2.mp3", "A/X/2.mp3", "A/X [2]/3.mp3"]);
    let plan = consolidation_plan("/lib", &p).expect("two directories");
    assert_eq!(plan.canonical, dir("/lib/A/X [2]", "A/X [2]", 3));
    assert_eq!(plan.sources, vec![dir("/lib/A/X", "A/X", 2)]);
    for s in &plan.sources {
        assert!(s.track_count <= plan.canonical.track_count);
    }
}

#[test]
fn plan_on_a_tie_keeps_the_first_directory() {
    let p = paths(&["A/X/1.mp3", "A/Y/1.mp3", "A/Z/1.mp3", "A/Y/2.mp3", "A/X/2.mp3"]);
    let plan = consolidation_plan("/lib", &p).expect("three directories");
    assert_eq!(plan.canonical.abs_dir, "/lib/A/X");
    assert_eq!(
        plan.sources.iter().map(|d| d.abs_dir.as_str()).collect::<Vec<_>>(),
        vec!["/lib/A/Y", "/lib/A/Z"]
    );
}

#[test]
fn nothing_to_do_in_one_directory() {
    let p = paths(&["A/X/1.mp3", "A/X/2.mp3"]);
    assert!(consolidation_plan("/lib", &p).is_none());
    assert!(consolidation_plan("/lib", &Vec::new()).is_none());
}

fn std_name(name: &str, k: usize) -> String {
    if k == 1 {
        return name.to_string();
    }
    let stem = Path::new(name)
        .file_stem()
        .unwrap_or_default()
        .to_string_lossy()
        .to_string();
    let ext = Path::new(name)
        .extension()
        .map(|e| format!(".{}", e.to_string_lossy()))
        .unwrap_or_default();
    format!("{}_{}{}", stem, k, ext)
}

fn incoming(v: &[(&str, &str)]) -> Vec<IncomingFile> {
    v.iter()
        .map(|(d, n)| IncomingFile { dir: d.to_string(), name: n.to_string() })
        .collect()
}

#[test]
fn second_names_follow_std_paths() {
    for name in [
        "01 Song.flac",
        "cover.jpg",
        "archive.tar.gz",
        ".hidden",
        ".hidden.txt",
        "noext",
        "trailing.",
        "...",
        "..x",
        "a.b.c.d",
        "",
        ".",
        "..",
        "ünïcödé.mp3",
    ] {
        let chosen = choose_names(&vec![name.to_string()], &incoming(&[("/d", name)]));
        assert_eq!(chosen, vec![std_name(name, 2)], "name {:?}", name);
    }
}

#[test]
fn free_names_are_kept() {
    let chosen = choose_names(
        &vec!["02.flac".to_string()],
        &incoming(&[("/a", "01 Song.flac"), ("/a", "cover.jpg")]),
    );
    assert_eq!(chosen, vec!["01 Song.flac".to_string(), "cover.jpg".to_string()]);
}

#[test]
fn names_never_collide() {
    let taken = vec!["01.flac".to_string(), "01_2.flac".to_string(), "02.flac".to_string()];
    let files = incoming(&[("/a", "01.flac"), ("/b", "01.flac"), ("/c", "01.flac"), ("/c", "02.flac")]);
    let chosen = choose_names(&taken, &files);
    assert_eq!(chosen, vec!["01_3.flac", "01_4.flac", "01_5.flac", "02_2.flac"]);
}

#[test]
fn two_sources_with_the_same_name_both_survive() {
    let taken = vec!["01.flac".to_string(), "02.flac".to_string()];
    let files = incoming(&[("/lib/A/X1", "01.flac"), ("/lib/A/X2", "01.flac")]);
    let chosen = choose_names(&taken, &files);
    assert_eq!(chosen, vec!["01_2.flac", "01_3.flac"]);
}

#[test]
fn many_collisions_reach_two_digits() {
    let mut taken = vec!["t.mp3".to_string()];
    for k in 2..=11 {
        taken.push(std_name("t.mp3", k));
    }
    let chosen = choose_names(&taken, &incoming(&[("/s", "t.mp3")]));
    assert_eq!(chosen, vec!["t_12.mp3"]);
}

#[test]
fn decimal_texts() {
    assert_eq!(decimal_text(0), "0");
    assert_eq!(decimal_text(7), "7");
    assert_eq!(decimal_text(10), "10");
    assert_eq!(decimal_text(1234567890), "1234567890");
}

#[test]
fn renamed_tracks_get_their_own_rows() {
    // A/X keeps the album; A/X (1)/01.flac collides with A/X/01.flac.
    let p = paths(&["A/X/01.flac", "A/X/02.flac", "A/X (1)/01.flac"]);
    let plan = consolidation_plan("/lib", &p).expect("two directories");
    assert_eq!(plan.canonical.rel_dir, "A/X");
    let taken = vec!["01.flac".to_string(), "02.flac".to_string()];
    let files = incoming(&[("/lib/A/X (1)", "01.flac")]);
    let chosen = choose_names(&taken, &files);
    assert_eq!(chosen, vec!["01_2.flac"]);
    let moves = track_moves("/lib", &p, &plan.canonical, &files, &chosen);
    assert_eq!(moves.len(), 3);
    assert!(moves[0].is_none());
    assert!(moves[1].is_none());
    let m = moves[2].as_ref().expect("the moved track");
    assert_eq!(m.old_path, "A/X (1)/01.flac");
    assert_eq!(m.new_path, "A/X/01_2.flac");
    assert_eq!(m.file, 0);
    assert_eq!(m.new_dir, "/lib/A/X");
}

#[test]
fn the_kept_directory_is_not_rewritten() {
    let p = paths(&["A/X/03.flac", "A/X (CD2)/01.flac", "A/X (CD2)/02.flac"]);
    let plan = consolidation_plan("/lib", &p).expect("two directories");
    assert_eq!(plan.canonical.rel_dir, "A/X (CD2)");
    let taken = vec!["01.flac".to_string(), "02.flac".to_string()];
    let files = incoming(&[("/lib/A/X", "03.flac")]);
    let chosen = choose_names(&taken, &files);
    let moves = track_moves("/lib", &p, &plan.canonical, &files, &chosen);
    let m = moves[0].as_ref().expect("the moved track");
    assert_eq!((m.old_path.as_str(), m.new_path.as_str()), ("A/X/03.flac", "A/X (CD2)/03.flac"));
    assert!(moves[1].is_none());
    assert!(moves[2].is_none());
}

#[test]
fn tracks_of_files_not_moved_stay() {
    let p = paths(&["A/X/01.flac", "A/Y/09.flac"]);
    let files = incoming(&[("/lib/A/Y", "other.flac")]);
    let kept = dir("/lib/A/X", "A/X", 1);
    let moves = track_moves("/lib", &p, &kept, &files, &vec!["other.flac".to_string()]);
    assert!(moves.iter().all(|m| m.is_none()));
}

#[test]
fn consolidating_a_consolidated_album_does_nothing() {
    // After moving A/X1/01.flac into A/X, every track lies in A/X.
    let before = paths(&["A/X/01.flac", "A/X1/01.flac"]);
    assert!(consolidation_plan("/lib", &before).is_some());
    let after = paths(&["A/X/01.flac", "A/X/01_2.flac"]);
    assert!(consolidation_plan("/lib", &after).is_none());
}

#[test]
fn absolute_track_paths_stay_absolute() {
    let p = paths(&["/lib/A/X/01.flac", "/lib/A/Y/02.flac", "/lib/A/X/03.flac"]);
    let plan = consolidation_plan("/lib", &p).expect("two directories");
    assert_eq!(plan.canonical, dir("/lib/A/X", "A/X", 2));
    let files = incoming(&[("/lib/A/Y", "02.flac")]);
    let chosen = choose_names(&vec!["01.flac".to_string(), "03.flac".to_string()], &files);
    let moves = track_moves("/lib", &p, &plan.canonical, &files, &chosen);
    let m = moves[1].as_ref().expect("the moved track");
    assert_eq!(m.old_path, "/lib/A/Y/02.flac");
    assert_eq!(m.new_path, "/lib/A/X/02.flac");
    assert_eq!(m.new_dir, "/lib/A/X");
    assert!(moves[0].is_none() && moves[2].is_none());
}

#[test]
fn the_kept_directory_is_never_a_source() {
    let p = paths(&["A/X/1", "A/Y/1", "A/X/2", "A/Z/1", "A/Y/2"]);
    let plan = consolidation_plan("/lib", &p).expect("three directories");
    for s in &plan.sources {
        assert_ne!(s.abs_dir, plan.canonical.abs_dir);
    }
}
