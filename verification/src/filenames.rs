//! Names of the files moved during a consolidation.
use vstd::prelude::*;
use crate::text::{chars_of, text_in, text_views};

verus! {

/// The name has no path separator: it is a single path component.
pub open spec fn is_component(name: Seq<char>) -> bool {
    forall|i: int| 0 <= i < name.len() ==> name[i] != '/'
}

/// The component names a file: it is neither empty nor `.` nor `..`.
pub open spec fn names_file(name: Seq<char>) -> bool {
    name.len() > 0 && name != seq!['.'] && name != seq!['.', '.']
}

/// The index of the last `.` in the name, or -1 when there is none.
pub open spec fn last_dot(name: Seq<char>) -> int
    decreases name.len(),
{
    if name.len() == 0 {
        -1
    } else if name.last() == '.' {
        name.len() - 1
    } else {
        last_dot(name.drop_last())
    }
}

/// The stem of a file name, as `std::path::Path::file_stem` documents it
/// (and the empty text where that returns nothing): the whole name when it
/// has no `.` past its first character, otherwise the part before the last
/// `.`.
pub open spec fn file_stem_spec(name: Seq<char>) -> Seq<char> {
    if !names_file(name) {
        Seq::empty()
    } else if last_dot(name) <= 0 {
        name
    } else {
        name.take(last_dot(name))
    }
}

/// The extension of a file name, as `std::path::Path::extension` documents
/// it: none when the name has no `.` past its first character, otherwise the
/// part after the last `.`.
pub open spec fn extension_spec(name: Seq<char>) -> Option<Seq<char>> {
    if !names_file(name) || last_dot(name) <= 0 {
        None
    } else {
        Some(name.skip(last_dot(name) + 1))
    }
}

/// The extension with its dot in front, or nothing when there is none.
pub open spec fn dot_ext_spec(name: Seq<char>) -> Seq<char> {
    match extension_spec(name) {
        Some(e) => seq!['.'] + e,
        None => Seq::empty(),
    }
}

/// The digit of a number below ten.
pub open spec fn digit(d: nat) -> char {
    if d == 0 { '0' } else if d == 1 { '1' } else if d == 2 { '2' } else if d == 3 { '3' }
    else if d == 4 { '4' } else if d == 5 { '5' } else if d == 6 { '6' } else if d == 7 { '7' }
    else if d == 8 { '8' } else { '9' }
}

/// The decimal notation of a number.
pub open spec fn decimal(n: nat) -> Seq<char>
    decreases n,
{
    if n < 10 {
        seq![digit(n)]
    } else {
        decimal(n / 10).push(digit(n % 10))
    }
}

/// The `k`-th name a file may take in the directory that keeps the album:
/// the first is its own name, the `k`-th (from the second on) is
/// `{stem}_{k}{.extension}`.
pub open spec fn candidate_spec(name: Seq<char>, k: nat) -> Seq<char> {
    if k <= 1 {
        name
    } else {
        file_stem_spec(name) + seq!['_'] + decimal(k) + dot_ext_spec(name)
    }
}

/// `chosen` is the first of the names of `name` (in the order of
/// `candidate_spec`) that is not in `blocked`.
pub open spec fn first_free(name: Seq<char>, blocked: Seq<Seq<char>>, chosen: Seq<char>) -> bool {
    exists|k: nat|
        #![trigger candidate_spec(name, k)]
        1 <= k && chosen == candidate_spec(name, k) && !blocked.contains(chosen) && forall|j: nat|
            1 <= j < k ==> blocked.contains(#[trigger] candidate_spec(name, j))
}

proof fn lemma_last_dot(name: Seq<char>)
    ensures
        -1 <= last_dot(name) < name.len(),
        last_dot(name) >= 0 ==> name[last_dot(name)] == '.',
    decreases name.len(),
{
    if name.len() > 0 && name.last() != '.' {
        lemma_last_dot(name.drop_last());
    }
}

proof fn lemma_decimal_nonempty(n: nat)
    ensures
        decimal(n).len() >= 1,
    decreases n,
{
    if n >= 10 {
        lemma_decimal_nonempty(n / 10);
    }
}

/// Different numbers have different decimal notations.
proof fn lemma_decimal_injective(a: nat, b: nat)
    requires
        decimal(a) == decimal(b),
    ensures
        a == b,
    decreases a,
{
    if a < 10 && b < 10 {
        assert(decimal(a)[0] == digit(a));
        assert(decimal(b)[0] == digit(b));
    } else if a < 10 {
        lemma_decimal_nonempty(b / 10);
        assert(decimal(a).len() == 1);
    } else if b < 10 {
        lemma_decimal_nonempty(a / 10);
        assert(decimal(b).len() == 1);
    } else {
        let da = decimal(a);
        let db = decimal(b);
        assert(da.drop_last() =~= decimal(a / 10));
        assert(db.drop_last() =~= decimal(b / 10));
        assert(da.last() == digit(a % 10));
        assert(db.last() == digit(b % 10));
        lemma_decimal_injective(a / 10, b / 10);
        assert(a % 10 == b % 10);
        assert(a == 10 * (a / 10) + a % 10);
        assert(b == 10 * (b / 10) + b % 10);
    }
}

/// The names a file may take are all different.
proof fn lemma_candidates_distinct(name: Seq<char>, j: nat, k: nat)
    requires
        1 <= j < k,
    ensures
        candidate_spec(name, j) != candidate_spec(name, k),
{
    lemma_last_dot(name);
    lemma_decimal_nonempty(k);
    let ck = candidate_spec(name, k);
    if j == 1 {
        if !names_file(name) {
            assert(ck[0] == '_');
            if name.len() == 2 {
                assert(name == seq!['.', '.']) by {
                    assert(name.len() == 2);
                }
                assert(name[0] == '.');
            }
        } else if last_dot(name) > 0 {
            let d = last_dot(name);
            assert(name =~= name.take(d) + seq!['.'] + name.skip(d + 1));
        }
        assert(ck.len() > name.len() || (name.len() == 2 && ck[0] != name[0]));
    } else {
        let cj = candidate_spec(name, j);
        lemma_decimal_nonempty(j);
        if cj == ck {
            let pre = file_stem_spec(name) + seq!['_'];
            let post = dot_ext_spec(name);
            assert(cj.len() == ck.len());
            assert(decimal(j).len() == decimal(k).len());
            assert(cj.subrange(pre.len() as int, (pre.len() + decimal(j).len()) as int) =~= decimal(j));
            assert(ck.subrange(pre.len() as int, (pre.len() + decimal(k).len()) as int) =~= decimal(k));
            lemma_decimal_injective(j, k);
        }
    }
}

/// A sequence of different texts, all in `b`, is no longer than `b`.
proof fn lemma_pigeonhole(c: Seq<Seq<char>>, b: Seq<Seq<char>>)
    requires
        c.no_duplicates(),
        forall|i: int| 0 <= i < c.len() ==> b.contains(#[trigger] c[i]),
    ensures
        c.len() <= b.len(),
{
    broadcast use vstd::seq_lib::seq_to_set_is_finite;
    c.unique_seq_to_set();
    b.lemma_cardinality_of_set();
    assert forall|x: Seq<char>| c.to_set().contains(x) implies b.to_set().contains(x) by {
        let i = choose|i: int| 0 <= i < c.len() && c[i] == x;
        assert(b.contains(c[i]));
    }
    vstd::set_lib::lemma_len_subset(c.to_set(), b.to_set());
}

/// The text of a digit.
fn digit_text(d: usize) -> (r: &'static str)
    requires
        d < 10,
    ensures
        r@ == seq![digit(d as nat)],
{
    proof {
        reveal_strlit("0");
        reveal_strlit("1");
        reveal_strlit("2");
        reveal_strlit("3");
        reveal_strlit("4");
        reveal_strlit("5");
        reveal_strlit("6");
        reveal_strlit("7");
        reveal_strlit("8");
        reveal_strlit("9");
    }
    let r = if d == 0 {
        "0"
    } else if d == 1 {
        "1"
    } else if d == 2 {
        "2"
    } else if d == 3 {
        "3"
    } else if d == 4 {
        "4"
    } else if d == 5 {
        "5"
    } else if d == 6 {
        "6"
    } else if d == 7 {
        "7"
    } else if d == 8 {
        "8"
    } else {
        "9"
    };
    assert(r@ =~= seq![digit(d as nat)]);
    r
}

/// The decimal notation of a number.
pub fn decimal_text(n: usize) -> (r: String)
    ensures
        r@ == decimal(n as nat),
    decreases n,
{
    if n < 10 {
        String::from_str(digit_text(n))
    } else {
        let r = decimal_text(n / 10).concat(digit_text(n % 10));
        assert(r@ =~= decimal(n as nat));
        r
    }
}

/// The stem of a file name and its extension with the dot in front.
fn name_parts(name: &str) -> (r: (String, String))
    requires
        is_component(name@),
    ensures
        r.0@ == file_stem_spec(name@),
        r.1@ == dot_ext_spec(name@),
{
    proof {
        reveal_strlit(".");
        lemma_last_dot(name@);
    }
    let cs = chars_of(name);
    let n = cs.len();
    let is_file = !(n == 0 || (n == 1 && cs[0] == '.') || (n == 2 && cs[0] == '.' && cs[1]
        == '.'));
    assert(is_file == names_file(name@)) by {
        if n == 1 && name@[0] == '.' {
            assert(name@ =~= seq!['.']);
        }
        if n == 2 && name@[0] == '.' && name@[1] == '.' {
            assert(name@ =~= seq!['.', '.']);
        }
        if name@ == seq!['.'] {
            assert(name@[0] == '.');
        }
        if name@ == seq!['.', '.'] {
            assert(name@[0] == '.' && name@[1] == '.');
        }
    }
    if !is_file {
        return (String::new(), String::new());
    }
    let mut j: usize = n;
    assert(name@.take(n as int) =~= name@);
    while j > 0 && cs[j - 1] != '.'
        invariant
            j <= n,
            n == cs.len(),
            cs@ == name@,
            last_dot(name@) == last_dot(name@.take(j as int)),
        decreases j,
    {
        assert(name@.take(j as int).drop_last() =~= name@.take(j - 1));
        j = j - 1;
    }
    proof {
        if j > 0 {
            assert(name@.take(j as int).last() == '.');
        } else {
            assert(name@.take(0) =~= Seq::<char>::empty());
        }
    }
    if j <= 1 {
        (String::from_str(name), String::new())
    } else {
        let stem = String::from_str(name.substring_char(0, j - 1));
        let ext = String::from_str(".").concat(name.substring_char(j, n));
        assert(ext@ =~= dot_ext_spec(name@));
        (stem, ext)
    }
}

/// The `k`-th name a file may take.
fn candidate(name: &str, parts: &(String, String), k: usize) -> (r: String)
    requires
        1 <= k,
        parts.0@ == file_stem_spec(name@),
        parts.1@ == dot_ext_spec(name@),
    ensures
        r@ == candidate_spec(name@, k as nat),
{
    if k == 1 {
        String::from_str(name)
    } else {
        proof {
            reveal_strlit("_");
        }
        let r = parts.0.clone().concat("_").concat(decimal_text(k).as_str()).concat(
            parts.1.as_str(),
        );
        assert(r@ =~= candidate_spec(name@, k as nat));
        r
    }
}

/// A file to be moved into the directory that keeps the album: the
/// directory it lies in and its name.
pub struct IncomingFile {
    pub dir: String,
    pub name: String,
}

/// The views of files to be moved: (directory, name).
pub open spec fn incoming_views(files: Seq<IncomingFile>) -> Seq<(Seq<char>, Seq<char>)> {
    files.map_values(|f: IncomingFile| (f.dir@, f.name@))
}

/// Chooses the name under which each incoming file enters the directory
/// that keeps the album: the first of its names (its own, then
/// `{stem}_2{.ext}`, `{stem}_3{.ext}`, ...) that is neither among the names
/// already there (`taken`) nor chosen for an earlier file. So no file is
/// overwritten and no two files get the same name.
pub fn choose_names(taken: &Vec<String>, incoming: &Vec<IncomingFile>) -> (chosen: Vec<String>)
    requires
        forall|i: int| 0 <= i < incoming.len() ==> is_component(#[trigger] incoming@[i].name@),
        taken.len() + incoming.len() < usize::MAX,
    ensures
        chosen.len() == incoming.len(),
        forall|i: int|
            #![trigger chosen@[i]]
            0 <= i < chosen.len() ==> first_free(
                incoming@[i].name@,
                text_views(taken@) + text_views(chosen@).take(i),
                chosen@[i]@,
            ),
        forall|i: int|
            0 <= i < chosen.len() ==> !text_views(taken@).contains(#[trigger] chosen@[i]@),
        forall|i: int, j: int| 0 <= i < j < chosen.len() ==> chosen@[i]@ != chosen@[j]@,
{
    let mut chosen: Vec<String> = Vec::new();
    let mut blocked: Vec<String> = Vec::new();
    let mut t: usize = 0;
    while t < taken.len()
        invariant
            t <= taken.len(),
            blocked.len() == t,
            text_views(blocked@) =~= text_views(taken@).take(t as int),
        decreases taken.len() - t,
    {
        let c = taken[t].clone();
        assert(c@ == taken@[t as int]@);
        blocked.push(c);
        assert(blocked@[t as int]@ == text_views(taken@)[t as int]);
        assert(text_views(blocked@) =~= text_views(taken@).take(t + 1));
        t = t + 1;
    }
    assert(text_views(taken@).take(taken.len() as int) =~= text_views(taken@));
    let mut i: usize = 0;
    while i < incoming.len()
        invariant
            forall|x: int| 0 <= x < incoming.len() ==> is_component(#[trigger] incoming@[x].name@),
            taken.len() + incoming.len() < usize::MAX,
            i <= incoming.len(),
            chosen.len() == i,
            text_views(blocked@) =~= text_views(taken@) + text_views(chosen@),
            forall|x: int|
                #![trigger chosen@[x]]
                0 <= x < i ==> first_free(
                    incoming@[x].name@,
                    text_views(taken@) + text_views(chosen@).take(x),
                    chosen@[x]@,
                ),
        decreases incoming.len() - i,
    {
        let name = incoming[i].name.as_str();
        let parts = name_parts(name);
        let ghost bv = text_views(blocked@);
        let mut k: usize = 1;
        let mut cand = candidate(name, &parts, 1);
        while text_in(&blocked, &cand)
            invariant
                bv == text_views(blocked@),
                bv.len() == taken.len() + i,
                taken.len() + incoming.len() < usize::MAX,
                i < incoming.len(),
                1 <= k <= bv.len() + 1,
                parts.0@ == file_stem_spec(name@),
                parts.1@ == dot_ext_spec(name@),
                cand@ == candidate_spec(name@, k as nat),
                forall|j: nat| 1 <= j < k ==> bv.contains(#[trigger] candidate_spec(name@, j)),
            decreases bv.len() + 1 - k,
        {
            proof {
                let c = Seq::new(k as nat, |x: int| candidate_spec(name@, (x + 1) as nat));
                assert forall|x: int, y: int| 0 <= x < c.len() && 0 <= y < c.len() && x != y
                    implies c[x] != c[y] by {
                    if x < y {
                        lemma_candidates_distinct(name@, (x + 1) as nat, (y + 1) as nat);
                    } else {
                        lemma_candidates_distinct(name@, (y + 1) as nat, (x + 1) as nat);
                    }
                }
                assert forall|x: int| 0 <= x < c.len() implies bv.contains(#[trigger] c[x]) by {
                    if x + 1 < k {
                        assert(bv.contains(candidate_spec(name@, (x + 1) as nat)));
                    }
                }
                lemma_pigeonhole(c, bv);
            }
            k = k + 1;
            cand = candidate(name, &parts, k);
        }
        proof {
            assert(text_views(chosen@).take(i as int) =~= text_views(chosen@));
            assert(first_free(name@, text_views(taken@) + text_views(chosen@), cand@)) by {
                assert(text_views(taken@) + text_views(chosen@) =~= bv);
            }
        }
        let ghost before = chosen@;
        let ghost before_blocked = blocked@;
        let copy = cand.clone();
        assert(copy@ == cand@);
        blocked.push(copy);
        chosen.push(cand);
        proof {
            assert(blocked@ == before_blocked.push(copy));
            assert(chosen@ == before.push(cand));
            assert(text_views(blocked@) =~= text_views(before_blocked).push(cand@));
            assert(text_views(chosen@) =~= text_views(before).push(cand@));
            assert(text_views(blocked@) =~= text_views(taken@) + text_views(chosen@));
            assert forall|x: int| #![trigger chosen@[x]] 0 <= x <= i implies first_free(
                incoming@[x].name@,
                text_views(taken@) + text_views(chosen@).take(x),
                chosen@[x]@,
            ) by {
                assert(text_views(chosen@).take(x) =~= text_views(before).take(x));
                if x < i {
                    assert(chosen@[x] == before[x]);
                }
            }
        }
        i = i + 1;
    }
    proof {
        assert forall|x: int| 0 <= x < chosen.len() implies !text_views(taken@).contains(
            #[trigger] chosen@[x]@,
        ) by {
            let bl = text_views(taken@) + text_views(chosen@).take(x);
            assert(first_free(incoming@[x].name@, bl, chosen@[x]@));
            if text_views(taken@).contains(chosen@[x]@) {
                let y = choose|y: int| 0 <= y < text_views(taken@).len() && text_views(taken@)[y] == chosen@[x]@;
                assert(bl[y] == chosen@[x]@);
            }
        }
        assert forall|x: int, y: int| 0 <= x < y < chosen.len() implies chosen@[x]@ != chosen@[y]@ by {
            let bl = text_views(taken@) + text_views(chosen@).take(y);
            assert(first_free(incoming@[y].name@, bl, chosen@[y]@));
            assert(bl[text_views(taken@).len() + x] == chosen@[x]@);
        }
    }
    chosen
}

} // verus!
