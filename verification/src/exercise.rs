//! The course: which exercises there are, in order, and where their files live.
use vstd::prelude::*;
use crate::text::{
    append_chars, chars_of, contains, find_from_exec, lemma_starts_with_same_len, lemma_matches_at_skip, matches_at_exec, slice_of,
    starts_with, starts_with_exec, string_of,
};

verus! {

/// An exercise, as far as the viewer is concerned.
pub struct Exercise {
    /// The `[[bin]]` name, e.g. `lesson1`. Also the name `cargo test` needs.
    pub name: String,
    /// What the lesson is called on screen, e.g. `A Bag You Can See`.
    pub title: String,
    /// Path from `src/`, e.g. `../exercises/01_packing/lesson1.rs`.
    pub path: String,
}

/// The course, in order: each exercise's name, title and path.
pub open spec fn catalog() -> Seq<(Seq<char>, Seq<char>, Seq<char>)> {
    seq![
        ("lesson0"@, "Welcome to Ratlings"@, "../exercises/00_intro/lesson0.rs"@),
        ("lesson1"@, "A Bag You Can See"@, "../exercises/01_packing/lesson1.rs"@),
        ("lesson2"@, "Room for Everything"@, "../exercises/01_packing/lesson2.rs"@),
    ]
}

/// The names of the course's exercises, in order.
pub open spec fn catalog_names() -> Seq<Seq<char>> {
    Seq::new(catalog().len(), |i: int| catalog()[i].0)
}

pub open spec fn exercise_view(e: Exercise) -> (Seq<char>, Seq<char>, Seq<char>) {
    (e.name@, e.title@, e.path@)
}

fn entry(name: &str, title: &str, path: &str) -> (e: Exercise)
    ensures
        exercise_view(e) == (name@, title@, path@),
{
    Exercise {
        name: String::from_str(name),
        title: String::from_str(title),
        path: String::from_str(path),
    }
}

/// Every lesson, in course order.
pub fn exercises() -> (v: Vec<Exercise>)
    ensures
        v@.len() == catalog().len(),
        forall|i: int| 0 <= i < v@.len() ==> exercise_view(#[trigger] v@[i]) == catalog()[i],
{
    let mut v: Vec<Exercise> = Vec::new();
    v.push(entry("lesson0", "Welcome to Ratlings", "../exercises/00_intro/lesson0.rs"));
    v.push(entry("lesson1", "A Bag You Can See", "../exercises/01_packing/lesson1.rs"));
    v.push(entry("lesson2", "Room for Everything", "../exercises/01_packing/lesson2.rs"));
    v
}

/// How many lessons the course has.
pub fn exercise_count() -> (n: usize)
    ensures
        n == catalog().len(),
{
    3
}

/// The position of the lesson called `name`, if the course has one.
pub fn exercise_index(name: &str) -> (r: Option<usize>)
    ensures
        r matches Some(i) ==> i < catalog().len() && catalog()[i as int].0 == name@ && forall|
            j: int,
        |
            0 <= j < i ==> catalog()[j].0 != name@,
        r is None ==> forall|j: int| 0 <= j < catalog().len() ==> catalog()[j].0 != name@,
{
    let all = exercises();
    let want = chars_of(name);
    let mut i: usize = 0;
    while i < all.len()
        invariant
            i <= all@.len(),
            all@.len() == catalog().len(),
            forall|k: int| 0 <= k < all@.len() ==> exercise_view(#[trigger] all@[k]) == catalog()[k],
            want@ == name@,
            forall|j: int| 0 <= j < i ==> catalog()[j].0 != name@,
        decreases all.len() - i,
    {
        let have = chars_of(all[i].name.as_str());
        assert(exercise_view(all@[i as int]) == catalog()[i as int]);
        if have.len() == want.len() && starts_with_exec(have.as_slice(), want.as_slice()) {
            proof {
                lemma_starts_with_same_len(have@, want@);
            }
            return Some(i);
        }
        proof {
            if have@ == want@ {
                assert(starts_with(have@, want@));
            }
        }
        i += 1;
    }
    None
}

/// The names of the course's lessons, joined with `", "`, for a message that lists them.
pub fn available_names() -> (s: String)
    ensures
        s@ == "lesson0, lesson1, lesson2"@,
{
    String::from_str("lesson0, lesson1, lesson2")
}

// ───────────────────────────── paths ─────────────────────────────

/// `base` joined with the relative or absolute path `rel`, as `PathBuf::push` joins them on
/// Unix: an absolute `rel` replaces `base`; otherwise a `/` separates them unless `base` is
/// empty or already ends with one.
pub open spec fn path_join(base: Seq<char>, rel: Seq<char>) -> Seq<char> {
    if rel.len() > 0 && rel[0] == '/' {
        rel
    } else if base.len() == 0 || base.last() == '/' {
        base + rel
    } else {
        base + seq!['/'] + rel
    }
}

pub fn path_join_exec(base: &str, rel: &[char]) -> (r: String)
    ensures
        r@ == path_join(base@, rel@),
{
    if rel.len() > 0 && rel[0] == '/' {
        return string_of(rel);
    }
    let mut out = chars_of(base);
    if out.len() > 0 && out[out.len() - 1] != '/' {
        out.push('/');
    }
    append_chars(&mut out, rel);
    string_of(out.as_slice())
}

/// `s` with every leading copy of `p` removed, as `str::trim_start_matches` with a string.
pub open spec fn strip_leading(s: Seq<char>, p: Seq<char>) -> Seq<char>
    decreases s.len(),
{
    if p.len() > 0 && starts_with(s, p) {
        strip_leading(s.skip(p.len() as int), p)
    } else {
        s
    }
}

impl Exercise {
    /// Lesson 0 is a tour of the viewer itself, so it gets a live checklist.
    pub fn is_tour(&self) -> (b: bool)
        ensures
            b == contains(self.path@, "/00_intro/"@),
    {
        let p = chars_of(self.path.as_str());
        let pat = chars_of("/00_intro/");
        find_from_exec(p.as_slice(), pat.as_slice(), 0).is_some()
    }

    /// Where the file lives on disk, under the crate directory `manifest_dir`.
    pub fn file(&self, manifest_dir: &str) -> (f: String)
        ensures
            f@ == path_join(manifest_dir@, strip_leading(self.path@, "../"@)),
    {
        let p = chars_of(self.path.as_str());
        let up = chars_of("../");
        let mut start: usize = 0;
        assert(p@.skip(0) =~= p@);
        while up.len() > 0 && matches_at_exec(p.as_slice(), up.as_slice(), start)
            invariant
                start <= p@.len(),
                up@ == "../"@,
                strip_leading(p@.skip(start as int), up@) == strip_leading(p@, up@),
            decreases p.len() - start,
        {
            proof {
                lemma_matches_at_skip(p@, up@, start as int);
            }
            assert(p@.skip(start as int).skip(up@.len() as int) =~= p@.skip(start + up@.len()));
            start = start + up.len();
        }
        proof {
            lemma_matches_at_skip(p@, up@, start as int);
        }
        let rel = slice_of(p.as_slice(), start, p.len());
        assert(rel@ =~= p@.skip(start as int));
        path_join_exec(manifest_dir, rel.as_slice())
    }
}

} // verus!
