//! Paths of tracks and album directories in the beets library.
use vstd::prelude::*;
use crate::text::chars_of;

verus! {

/// The separator of path components.
pub open spec fn slash() -> Seq<char> {
    seq!['/']
}

/// The path starts at the root.
pub open spec fn is_absolute(p: Seq<char>) -> bool {
    p.len() > 0 && p[0] == '/'
}

/// `a/b`.
pub open spec fn join_spec(a: Seq<char>, b: Seq<char>) -> Seq<char> {
    a + slash() + b
}

/// The absolute path of a track that beets stores as `stored`: paths that
/// start at the root stay as they are, others are relative to the library
/// directory.
pub open spec fn track_path_spec(library_dir: Seq<char>, stored: Seq<char>) -> Seq<char> {
    if is_absolute(stored) {
        stored
    } else {
        join_spec(library_dir, stored)
    }
}

/// A path with the library directory and its separator removed from its
/// front, if it starts with them; the path unchanged otherwise.
pub open spec fn library_relative_spec(path: Seq<char>, library_dir: Seq<char>) -> Seq<char> {
    let prefix = library_dir + slash();
    if prefix.is_prefix_of(path) {
        path.skip(prefix.len() as int)
    } else {
        path
    }
}

/// The index of the last separator in the path, or -1 when there is none.
pub open spec fn last_slash(p: Seq<char>) -> int
    decreases p.len(),
{
    if p.len() == 0 {
        -1
    } else if p.last() == '/' {
        p.len() - 1
    } else {
        last_slash(p.drop_last())
    }
}

/// A component starts at `i` and is `.` or `..`.
pub open spec fn dot_component_at(d: Seq<char>, i: int) -> bool {
    d[i] == '.' && (i + 1 == d.len() || d[i + 1] == '/' || (d[i + 1] == '.' && (i + 2 == d.len()
        || d[i + 2] == '/')))
}

/// A plain directory path: not empty, no separator at its end, no two
/// separators in a row, and no component `.` or `..`.
pub open spec fn is_plain_dir(d: Seq<char>) -> bool {
    &&& d.len() > 0
    &&& d.last() != '/'
    &&& forall|i: int| 0 <= i < d.len() - 1 && #[trigger] d[i] == '/' ==> d[i + 1] != '/'
    &&& forall|i: int|
        0 <= i < d.len() && (i == 0 || d[i - 1] == '/') ==> !#[trigger] dot_component_at(d, i)
}

/// A plain file name: one component, neither empty nor `.` nor `..`.
pub open spec fn is_plain_name(n: Seq<char>) -> bool {
    &&& n.len() > 0
    &&& forall|i: int| 0 <= i < n.len() ==> n[i] != '/'
    &&& n != seq!['.']
    &&& n != seq!['.', '.']
}

/// The path is a plain directory, a separator and a plain file name.
pub open spec fn is_plain_file_path(p: Seq<char>) -> bool {
    let k = last_slash(p);
    k >= 0 && is_plain_dir(p.take(k)) && is_plain_name(p.skip(k + 1))
}

/// What `std::path::Path::parent` returns for a path, as text.
pub uninterp spec fn path_parent(path: Seq<char>) -> Option<Seq<char>>;

/// What `std::path::Path::file_name` returns for a path, as text.
pub uninterp spec fn path_file_name(path: Seq<char>) -> Option<Seq<char>>;

/// The directory that holds an album's track: the parent of the track's
/// path, or `library/artist/album` when the path has no parent.
pub open spec fn album_dir_spec(
    library_dir: Seq<char>,
    track: Seq<char>,
    artist: Seq<char>,
    album: Seq<char>,
) -> Seq<char> {
    match path_parent(track) {
        Some(dir) => dir,
        None => join_spec(join_spec(library_dir, artist), album),
    }
}

/// The parent directory of `path`, through `std::path::Path::parent`.
/// Trusted: the result (converted to text) is `path_parent` of the path;
/// and, as the documentation says ("the path without its final
/// component"), for a plain directory, a separator and a plain file name it
/// is that directory. Nothing more is claimed of it.
#[verifier::external_body]
pub(crate) fn parent_dir(path: &str) -> (r: Option<String>)
    ensures
        match r {
            Some(d) => path_parent(path@) == Some(d@) && (is_plain_file_path(path@) ==> d@
                == path@.take(last_slash(path@))),
            None => path_parent(path@) is None && !is_plain_file_path(path@),
        },
{
    match std::path::Path::new(path).parent() {
        Some(p) => Some(p.to_string_lossy().to_string()),
        None => None,
    }
}

/// The last component of `path`, through `std::path::Path::file_name`.
/// Trusted: the result (converted to text) is `path_file_name` of the path;
/// nothing more is claimed of it.
#[verifier::external_body]
pub(crate) fn file_name(path: &str) -> (r: Option<String>)
    ensures
        match r {
            Some(n) => path_file_name(path@) == Some(n@),
            None => path_file_name(path@) is None,
        },
{
    match std::path::Path::new(path).file_name() {
        Some(n) => Some(n.to_string_lossy().to_string()),
        None => None,
    }
}

/// Whether the path starts at the root.
pub fn starts_at_root(path: &str) -> (r: bool)
    ensures
        r == is_absolute(path@),
{
    !path.is_empty() && path.get_char(0) == '/'
}

/// `a/b`.
pub fn join(a: &str, b: &str) -> (r: String)
    ensures
        r@ == join_spec(a@, b@),
{
    proof {
        reveal_strlit("/");
    }
    assert("/"@ =~= slash());
    String::from_str(a).concat("/").concat(b)
}

/// The absolute path of a track stored by beets as `stored`.
pub fn track_path(library_dir: &str, stored: &str) -> (r: String)
    ensures
        r@ == track_path_spec(library_dir@, stored@),
{
    if starts_at_root(stored) {
        String::from_str(stored)
    } else {
        join(library_dir, stored)
    }
}

/// `a/n` ends in its last separator just before `n` when `n` has none.
pub proof fn lemma_last_slash_of_join(a: Seq<char>, n: Seq<char>)
    requires
        forall|i: int| 0 <= i < n.len() ==> n[i] != '/',
    ensures
        last_slash(join_spec(a, n)) == a.len(),
        join_spec(a, n).take(a.len() as int) == a,
        join_spec(a, n).skip((a.len() + 1) as int) == n,
    decreases n.len(),
{
    let p = join_spec(a, n);
    if n.len() == 0 {
        assert(p.last() == '/');
    } else {
        assert(p.last() == n.last());
        assert(p.drop_last() =~= join_spec(a, n.drop_last()));
        lemma_last_slash_of_join(a, n.drop_last());
    }
    assert(p.take(a.len() as int) =~= a);
    assert(p.skip((a.len() + 1) as int) =~= n);
}

/// Whether `path` starts with the library directory and its separator.
pub fn is_below(path: &str, library_dir: &str) -> (r: bool)
    ensures
        r == (library_dir@ + slash()).is_prefix_of(path@),
{
    proof {
        reveal_strlit("/");
    }
    assert("/"@ =~= slash());
    let prefix = String::from_str(library_dir).concat("/");
    let pre = chars_of(prefix.as_str());
    let whole = chars_of(path);
    if pre.len() > whole.len() {
        return false;
    }
    let mut i: usize = 0;
    while i < pre.len()
        invariant
            pre@ == library_dir@ + slash(),
            whole@ == path@,
            pre.len() <= whole.len(),
            i <= pre.len(),
            forall|k: int| 0 <= k < i ==> pre@[k] == whole@[k],
        decreases pre.len() - i,
    {
        if pre[i] != whole[i] {
            return false;
        }
        i = i + 1;
    }
    true
}

/// `path` with the library directory and its separator removed from its
/// front; `path` unchanged when it does not start with them.
pub fn library_relative(path: &str, library_dir: &str) -> (r: String)
    ensures
        r@ == library_relative_spec(path@, library_dir@),
{
    proof {
        reveal_strlit("/");
    }
    assert("/"@ =~= slash());
    let prefix = String::from_str(library_dir).concat("/");
    let pre = chars_of(prefix.as_str());
    let whole = chars_of(path);
    if pre.len() > whole.len() {
        return String::from_str(path);
    }
    let mut i: usize = 0;
    while i < pre.len()
        invariant
            pre@ == library_dir@ + slash(),
            whole@ == path@,
            pre.len() <= whole.len(),
            i <= pre.len(),
            forall|k: int| 0 <= k < i ==> pre@[k] == whole@[k],
        decreases pre.len() - i,
    {
        if pre[i] != whole[i] {
            return String::from_str(path);
        }
        i = i + 1;
    }
    assert(pre@.is_prefix_of(whole@));
    String::from_str(path.substring_char(pre.len(), whole.len()))
}

/// The directory that holds a track of the album `artist`/`album`, given
/// the parent of the track's path: that parent, or `library/artist/album`
/// when there is none.
pub fn album_dir_from(library_dir: &str, parent: Option<String>, artist: &str, album: &str) -> (r:
    String)
    ensures
        r@ == match parent {
            Some(dir) => dir@,
            None => join_spec(join_spec(library_dir@, artist@), album@),
        },
{
    match parent {
        Some(dir) => dir,
        None => {
            let lead = join(library_dir, artist);
            join(lead.as_str(), album)
        },
    }
}

/// The directory that holds a track of the album `artist`/`album`.
pub fn album_dir(library_dir: &str, track: &str, artist: &str, album: &str) -> (r: String)
    ensures
        r@ == album_dir_spec(library_dir@, track@, artist@, album@),
{
    album_dir_from(library_dir, parent_dir(track), artist, album)
}

/// Removing the library prefix undoes completing a relative path with it:
/// a path that beets stores relative to the library comes back unchanged.
pub proof fn lemma_relative_undoes_track_path(library_dir: Seq<char>, stored: Seq<char>)
    requires
        !is_absolute(stored),
    ensures
        library_relative_spec(track_path_spec(library_dir, stored), library_dir) == stored,
{
    let prefix = library_dir + slash();
    let full = track_path_spec(library_dir, stored);
    assert(full =~= prefix + stored);
    assert(prefix.is_prefix_of(full));
    assert(full.skip(prefix.len() as int) =~= stored);
}

/// Completing a path below the library directory undoes removing the
/// library prefix from it, when what remains is relative.
pub proof fn lemma_track_path_undoes_relative(path: Seq<char>, library_dir: Seq<char>)
    requires
        (library_dir + slash()).is_prefix_of(path),
        !is_absolute(library_relative_spec(path, library_dir)),
    ensures
        track_path_spec(library_dir, library_relative_spec(path, library_dir)) == path,
{
    let prefix = library_dir + slash();
    let rest = path.skip(prefix.len() as int);
    assert(prefix + rest =~= path);
}

} // verus!
