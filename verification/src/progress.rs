//! Which lessons have passed: one name per line in a file at the root of the course, kept as
//! a set ordered the way `String`s order (character by character).
use vstd::prelude::*;
use crate::exercise::{catalog, catalog_names, exercises, exercise_view, path_join, path_join_exec};
use crate::text::{
    append_str, chars_of, lines, lines_exec, string_of, trim, trim_exec, views, string_views,
};

verus! {

// ───────────────────────────── ordering names ─────────────────────────────

/// `a` sorts before `b`, comparing from index `i` on: by the first character that differs,
/// or else the shorter first. On `char`s this is the order of `String`, whose UTF-8 bytes
/// sort as the code points they encode.
pub open spec fn lex_lt_from(a: Seq<char>, b: Seq<char>, i: int) -> bool
    decreases a.len() - i,
{
    if i < 0 || i >= a.len() {
        i >= 0 && i < b.len()
    } else if i >= b.len() {
        false
    } else if a[i] != b[i] {
        a[i] < b[i]
    } else {
        lex_lt_from(a, b, i + 1)
    }
}

pub open spec fn lex_lt(a: Seq<char>, b: Seq<char>) -> bool {
    lex_lt_from(a, b, 0)
}

pub open spec fn same_prefix(a: Seq<char>, b: Seq<char>, i: int) -> bool {
    i <= a.len() && i <= b.len() && forall|k: int| 0 <= k < i ==> a[k] == b[k]
}

/// Two names that share their first `i` characters are equal, or one sorts before the other,
/// and never both ways.
pub proof fn lemma_lex_total(a: Seq<char>, b: Seq<char>, i: int)
    requires
        0 <= i,
        same_prefix(a, b, i),
    ensures
        a == b || lex_lt_from(a, b, i) || lex_lt_from(b, a, i),
        !(lex_lt_from(a, b, i) && lex_lt_from(b, a, i)),
        a == b ==> !lex_lt_from(a, b, i),
    decreases a.len() - i,
{
    if i >= a.len() || i >= b.len() {
        if i >= a.len() && i >= b.len() {
            assert(a =~= b);
        }
    } else if a[i] != b[i] {
    } else {
        lemma_lex_total(a, b, i + 1);
    }
}

/// Three-way comparison of names: negative, zero or positive as `a` sorts before, equals, or
/// sorts after `b`.
pub fn compare_names(a: &[char], b: &[char]) -> (r: i8)
    ensures
        r < 0 <==> lex_lt(a@, b@),
        r == 0 <==> a@ == b@,
        r > 0 <==> lex_lt(b@, a@),
{
    proof {
        lemma_lex_total(a@, b@, 0);
    }
    let mut i: usize = 0;
    loop
        invariant
            i <= a.len(),
            i <= b.len(),
            same_prefix(a@, b@, i as int),
            lex_lt_from(a@, b@, i as int) == lex_lt(a@, b@),
            lex_lt_from(b@, a@, i as int) == lex_lt(b@, a@),
        decreases a.len() - i,
    {
        proof {
            lemma_lex_total(a@, b@, i as int);
        }
        if i == a.len() {
            if i == b.len() {
                assert(a@ =~= b@);
                return 0;
            }
            return -1;
        }
        if i == b.len() {
            return 1;
        }
        if a[i] != b[i] {
            if a[i] < b[i] {
                return -1;
            }
            return 1;
        }
        i += 1;
    }
}

// ───────────────────────────── the set ─────────────────────────────

/// Each name sorts before the next, so none is there twice.
pub open spec fn sorted(ns: Seq<Seq<char>>) -> bool {
    forall|i: int, j: int| 0 <= i < j < ns.len() ==> lex_lt(#[trigger] ns[i], #[trigger] ns[j])
}

/// A name pushed onto a sequence joins its set.
pub proof fn lemma_push_to_set(e: Seq<Seq<char>>, t: Seq<char>)
    ensures
        e.push(t).to_set() == e.to_set().insert(t),
{
    assert forall|x: Seq<char>| e.push(t).to_set().contains(x) implies e.to_set().insert(t).contains(x) by {
        let i = choose|i: int| 0 <= i < e.push(t).len() && e.push(t)[i] == x;
        if i < e.len() {
            assert(e[i] == x);
        }
    }
    assert forall|x: Seq<char>| e.to_set().insert(t).contains(x) implies e.push(t).to_set().contains(x) by {
        if x == t {
            assert(e.push(t)[e.len() as int] == x);
        } else {
            let i = choose|i: int| 0 <= i < e.len() && e[i] == x;
            assert(e.push(t)[i] == x);
        }
    }
    assert(e.push(t).to_set() =~= e.to_set().insert(t));
}

/// The names of finished lessons, in order, each once.
pub struct Progress {
    done: Vec<String>,
}

impl Progress {
    /// The finished lessons' names, in order.
    pub closed spec fn names(&self) -> Seq<Seq<char>> {
        string_views(self.done@)
    }

    /// Ordered strictly, so each name is there once.
    #[verifier::type_invariant]
    spec fn wf(&self) -> bool {
        sorted(self.names())
    }

    pub open spec fn set(&self) -> Set<Seq<char>> {
        self.names().to_set()
    }
}

/// What a line of the progress file contributes: its trimmed text, unless that is empty or a
/// `#` comment.
pub open spec fn keeps(t: Seq<char>) -> bool {
    t.len() > 0 && t[0] != '#'
}

/// The names a progress file lists, in file order.
pub open spec fn entries(ls: Seq<Seq<char>>) -> Seq<Seq<char>>
    decreases ls.len(),
{
    if ls.len() == 0 {
        Seq::empty()
    } else {
        let e = entries(ls.drop_last());
        let t = trim(ls.last());
        if keeps(t) {
            e.push(t)
        } else {
            e
        }
    }
}

/// What the file holds once `names` are done: a comment, then one name per line.
pub open spec fn progress_text(names: Seq<Seq<char>>) -> Seq<char>
    decreases names.len(),
{
    if names.len() == 0 {
        progress_header()
    } else {
        progress_text(names.drop_last()) + names.last() + seq!['\n']
    }
}

pub open spec fn progress_header() -> Seq<char> {
    "# ratlings progress — one finished lesson per line\n"@
}

/// A name the progress file can hold and give back: the trimmed, non-empty text of one line,
/// no comment.
pub open spec fn clean(n: Seq<char>) -> bool {
    &&& keeps(n)
    &&& trim(n) == n
    &&& forall|k: int| 0 <= k < n.len() ==> n[k] != '\n'
}

pub open spec fn all_clean(ns: Seq<Seq<char>>) -> bool {
    forall|i: int| 0 <= i < ns.len() ==> clean(#[trigger] ns[i])
}

/// The comment line that heads the progress file.
pub open spec fn header_line() -> Seq<char> {
    progress_header().drop_last()
}

proof fn lemma_header()
    ensures
        progress_header() == header_line() + seq!['\n'],
        forall|k: int| 0 <= k < header_line().len() ==> header_line()[k] != '\n',
        header_line().len() > 0,
        header_line()[0] == '#',
        crate::text::strip_cr(header_line()) == header_line(),
        !keeps(trim(header_line())),
{
    reveal_strlit("# ratlings progress — one finished lesson per line\n");
    let h = header_line();
    assert(progress_header() =~= h + seq!['\n']);
    crate::text::lemma_trim_ends(h);
    assert(crate::text::skip_ws(h, 0) == 0);
}

proof fn lemma_text_ends(ns: Seq<Seq<char>>)
    ensures
        progress_text(ns).len() > 0,
        progress_text(ns).last() == '\n',
    decreases ns.len(),
{
    if ns.len() == 0 {
        lemma_header();
    } else {
        lemma_text_ends(ns.drop_last());
    }
}

/// A set grown by a clean name from clean names holds only clean names.
proof fn lemma_clean_after_insert(old: Seq<Seq<char>>, new: Seq<Seq<char>>, s: Seq<char>)
    requires
        all_clean(old),
        clean(s),
        new.to_set() == old.to_set().insert(s),
    ensures
        all_clean(new),
{
    assert forall|i: int| 0 <= i < new.len() implies clean(#[trigger] new[i]) by {
        assert(new.to_set().contains(new[i]));
        if new[i] != s {
            assert(old.to_set().contains(new[i]));
            let j = choose|j: int| 0 <= j < old.len() && old[j] == new[i];
            assert(clean(old[j]));
        }
    }
}

/// The names of the course's lessons can all be written to the progress file and read back.
pub proof fn lemma_catalog_names_clean()
    ensures
        all_clean(catalog_names()),
{
    reveal_strlit("lesson0");
    reveal_strlit("lesson1");
    reveal_strlit("lesson2");
    assert forall|i: int| 0 <= i < catalog_names().len() implies clean(#[trigger] catalog_names()[i]) by {
        let n = catalog_names()[i];
        crate::text::lemma_trim_ends(n);
        assert(crate::text::skip_ws(n, 0) == 0);
        assert(crate::text::back_ws(n, 0, n.len() as int) == n.len());
        assert(trim(n) =~= n);
    }
}

/// The lines of the progress file: the comment, then one per name.
proof fn lemma_text_lines(ns: Seq<Seq<char>>)
    requires
        all_clean(ns),
    ensures
        lines(progress_text(ns)) == seq![header_line()] + ns,
    decreases ns.len(),
{
    lemma_header();
    if ns.len() == 0 {
        crate::text::lemma_lines_one(header_line());
        assert(seq![header_line()] + ns =~= seq![header_line()]);
    } else {
        let p = ns.drop_last();
        let last = ns.last();
        assert(clean(ns[ns.len() - 1]));
        assert forall|i: int| 0 <= i < p.len() implies clean(#[trigger] p[i]) by {
            assert(p[i] == ns[i]);
        }
        lemma_text_lines(p);
        lemma_text_ends(p);
        let tail = last + seq!['\n'];
        assert(progress_text(ns) =~= progress_text(p) + tail);
        crate::text::lemma_lines_append(progress_text(p), tail);
        crate::text::lemma_lines_one(last);
        crate::text::lemma_trim_ends(last);
        assert(crate::text::strip_cr(last) == last) by {
            assert(!crate::text::is_ws(last.last()));
        }
        assert(seq![header_line()] + p + seq![last] =~= seq![header_line()] + ns);
    }
}

proof fn lemma_entries_after_header(ns: Seq<Seq<char>>)
    requires
        all_clean(ns),
    ensures
        entries(seq![header_line()] + ns) == ns,
    decreases ns.len(),
{
    lemma_header();
    let all = seq![header_line()] + ns;
    if ns.len() == 0 {
        assert(all.drop_last() =~= Seq::<Seq<char>>::empty());
        assert(all.last() == header_line());
        assert(entries(all.drop_last()) == Seq::<Seq<char>>::empty());
        assert(entries(all) == entries(all.drop_last()));
        assert(ns =~= Seq::<Seq<char>>::empty());
    } else {
        let p = ns.drop_last();
        assert forall|i: int| 0 <= i < p.len() implies clean(#[trigger] p[i]) by {
            assert(p[i] == ns[i]);
        }
        lemma_entries_after_header(p);
        assert(all.drop_last() =~= seq![header_line()] + p);
        assert(clean(ns[ns.len() - 1]));
        assert(all.last() == ns.last());
        assert(trim(ns.last()) == ns.last());
        assert(entries(all) == entries(all.drop_last()).push(ns.last()));
        assert(p.push(ns.last()) =~= ns);
    }
}

/// What the progress file says once `names` are done, read back, is `names` again, in order:
/// a name written is a name read.
pub proof fn lemma_progress_round_trip(names: Seq<Seq<char>>)
    requires
        all_clean(names),
    ensures
        entries(lines(progress_text(names))) == names,
{
    lemma_text_lines(names);
    lemma_entries_after_header(names);
}

/// What a write of the progress file holds, read back, is the set of lessons it was written
/// from.
pub proof fn lemma_progress_write_reads_back(p: Progress)
    requires
        all_clean(p.names()),
    ensures
        entries(lines(progress_text(p.names()))).to_set() == p.set(),
{
    lemma_progress_round_trip(p.names());
}

pub proof fn lemma_first_unfinished(names: Seq<Seq<char>>, done: Set<Seq<char>>, i: int)
    requires
        0 <= i <= names.len(),
        names.len() > 0,
    ensures
        i <= first_unfinished(names, done, i) < names.len() || first_unfinished(names, done, i)
            == names.len() - 1,
        0 <= first_unfinished(names, done, i) < names.len(),
        forall|j: int| i <= j < first_unfinished(names, done, i) ==> done.contains(#[trigger] names[j]),
    decreases names.len() - i,
{
    if i < names.len() && done.contains(names[i]) {
        lemma_first_unfinished(names, done, i + 1);
    }
}

/// The first index of `names` at or after `i` that is not in `done`, or the last index where
/// every one is.
pub open spec fn first_unfinished(names: Seq<Seq<char>>, done: Set<Seq<char>>, i: int) -> int
    decreases names.len() - i,
{
    if i >= names.len() {
        names.len() - 1
    } else if !done.contains(names[i]) {
        i
    } else {
        first_unfinished(names, done, i + 1)
    }
}

/// Puts `s` in its place in an ordered vector; `false`, with nothing changed, where it was
/// there already.
fn insert_sorted(done: &mut Vec<String>, s: String) -> (inserted: bool)
    requires
        sorted(string_views(old(done)@)),
    ensures
        sorted(string_views(final(done)@)),
        !inserted ==> final(done)@ == old(done)@,
        inserted == !string_views(old(done)@).contains(s@),
        string_views(final(done)@).to_set() == string_views(old(done)@).to_set().insert(s@),
{
    let ghost before = string_views(done@);
    let sc = chars_of(s.as_str());
    let mut k: usize = 0;
    while k < done.len()
        invariant
            k <= done@.len(),
            before == string_views(done@),
            sc@ == s@,
            forall|i: int| 0 <= i < k ==> lex_lt(#[trigger] before[i], s@),
            sorted(before),
        ensures
            k <= before.len(),
            before == string_views(done@),
            forall|i: int| 0 <= i < k ==> lex_lt(#[trigger] before[i], s@),
            k < before.len() ==> lex_lt(s@, before[k as int]),
        decreases done.len() - k,
    {
        let have = chars_of(done[k].as_str());
        assert(have@ == before[k as int]);
        let c = compare_names(have.as_slice(), sc.as_slice());
        if c == 0 {
            assert(before[k as int] == s@);
            assert(before.to_set() =~= before.to_set().insert(s@));
            return false;
        }
        if c > 0 {
            break;
        }
        k += 1;
    }
    assert(forall|i: int| 0 <= i < before.len() ==> #[trigger] before[i] != s@) by {
        assert forall|i: int| 0 <= i < before.len() implies #[trigger] before[i] != s@ by {
            if i < k {
                lemma_lex_total(before[i], s@, 0);
            } else if i > k {
                lemma_lex_total(before[k as int], before[i], 0);
                lemma_lex_total(s@, before[k as int], 0);
                lemma_lex_trans(s@, before[k as int], before[i]);
                lemma_lex_total(s@, before[i], 0);
            } else {
                lemma_lex_total(s@, before[i], 0);
            }
        }
    }
    done.insert(k, s);
    let ghost after = string_views(done@);
    assert(after =~= before.insert(k as int, s@));
    assert forall|i: int, j: int| 0 <= i < j < after.len() implies lex_lt(
        #[trigger] after[i],
        #[trigger] after[j],
    ) by {
        if j < k {
            assert(lex_lt(before[i], before[j]));
        } else if j == k {
        } else if i == k {
            lemma_lex_total(s@, before[k as int], 0);
            if j - 1 > k {
                assert(lex_lt(before[k as int], before[j - 1]));
                lemma_lex_trans(s@, before[k as int], before[j - 1]);
            }
        } else if i < k {
            assert(lex_lt(before[i], before[j - 1]));
        } else {
            assert(lex_lt(before[i - 1], before[j - 1]));
        }
    }
    assert(!before.contains(s@));
    assert(after.to_set() =~= before.to_set().insert(s@)) by {
        assert forall|x: Seq<char>| after.to_set().contains(x) implies before.to_set().insert(
            s@,
        ).contains(x) by {
            let i = choose|i: int| 0 <= i < after.len() && after[i] == x;
            if i < k {
                assert(before[i] == x);
            } else if i > k {
                assert(before[i - 1] == x);
            }
        }
        assert forall|x: Seq<char>| before.to_set().insert(s@).contains(x) implies after.to_set().contains(
            x,
        ) by {
            if x == s@ {
                assert(after[k as int] == x);
            } else {
                let i = choose|i: int| 0 <= i < before.len() && before[i] == x;
                if i < k {
                    assert(after[i] == x);
                } else {
                    assert(after[i + 1] == x);
                }
            }
        }
    }
    true
}

/// The order of names is transitive.
pub proof fn lemma_lex_trans(a: Seq<char>, b: Seq<char>, c: Seq<char>)
    requires
        lex_lt(a, b),
        lex_lt(b, c),
    ensures
        lex_lt(a, c),
{
    lemma_lex_trans_from(a, b, c, 0);
}

pub proof fn lemma_lex_trans_from(a: Seq<char>, b: Seq<char>, c: Seq<char>, i: int)
    requires
        0 <= i,
        same_prefix(a, b, i),
        same_prefix(b, c, i),
        lex_lt_from(a, b, i),
        lex_lt_from(b, c, i),
    ensures
        lex_lt_from(a, c, i),
    decreases a.len() - i,
{
    if i < a.len() && i < b.len() && i < c.len() && a[i] == b[i] && b[i] == c[i] {
        lemma_lex_trans_from(a, b, c, i + 1);
    }
}

impl Progress {
    /// An empty set.
    pub fn new() -> (p: Progress)
        ensures
            p.names().len() == 0,
    {
        let p = Progress { done: Vec::new() };
        assert(sorted(string_views(p.done@))) by {
            assert(string_views(p.done@).len() == 0);
        }
        p
    }

    /// The names of the finished lessons, in order, each once.
    pub fn done(&self) -> (r: &Vec<String>)
        ensures
            string_views(r@) == self.names(),
            sorted(self.names()),
    {
        proof {
            use_type_invariant(self);
        }
        &self.done
    }

    /// The names in a progress file: one per line, trimmed, skipping blank lines and `#`
    /// comments.
    pub fn parse(text: &str) -> (p: Progress)
        ensures
            p.set() == entries(lines(text@)).to_set(),
            all_clean(p.names()),
    {
        let src = chars_of(text);
        let ls = lines_exec(src.as_slice());
        let ghost all = views(ls@);
        let mut done: Vec<String> = Vec::new();
        assert(string_views(done@).to_set() =~= entries(all.take(0)).to_set());
        assert(sorted(string_views(done@))) by {
            assert(string_views(done@).len() == 0);
        }
        proof {
            crate::text::lemma_lines_no_break(src@, 0, 0);
        }
        let mut i: usize = 0;
        while i < ls.len()
            invariant
                i <= ls.len(),
                all == views(ls@),
                all == lines(src@),
                src@ == text@,
                sorted(string_views(done@)),
                string_views(done@).to_set() == entries(all.take(i as int)).to_set(),
                all_clean(string_views(done@)),
                forall|j: int, k: int|
                    0 <= j < all.len() && 0 <= k < all[j].len() ==> all[j][k] != '\n',
            decreases ls.len() - i,
        {
            assert(all[i as int] == ls@[i as int]@);
            assert(all.take(i + 1).drop_last() =~= all.take(i as int));
            assert(all.take(i + 1).last() == all[i as int]);
            let t = trim_exec(ls[i].as_slice());
            if t.len() > 0 && t[0] != '#' {
                let ghost e = entries(all.take(i as int));
                let ghost before = string_views(done@);
                proof {
                    crate::text::lemma_trim_trimmed(all[i as int]);
                    crate::text::lemma_trim_ends(all[i as int]);
                    let l = all[i as int];
                    crate::text::lemma_skip_ws(l, 0);
                    crate::text::lemma_back_ws(l, crate::text::skip_ws(l, 0), l.len() as int);
                    assert forall|k: int| 0 <= k < t@.len() implies t@[k] != '\n' by {
                        assert(t@[k] == all[i as int][crate::text::skip_ws(all[i as int], 0) + k]);
                    }
                    assert(clean(t@));
                }
                insert_sorted(&mut done, string_of(t.as_slice()));
                proof {
                    lemma_clean_after_insert(before, string_views(done@), t@);
                }
                proof {
                    lemma_push_to_set(e, t@);
                }
            }
            i += 1;
        }
        assert(all.take(ls.len() as int) =~= all);
        Progress { done }
    }

    pub fn is_done(&self, name: &str) -> (b: bool)
        ensures
            b == self.names().contains(name@),
    {
        let want = chars_of(name);
        let mut i: usize = 0;
        while i < self.done.len()
            invariant
                i <= self.done@.len(),
                want@ == name@,
                forall|k: int| 0 <= k < i ==> #[trigger] self.names()[k] != name@,
            decreases self.done.len() - i,
        {
            let have = chars_of(self.done[i].as_str());
            assert(have@ == self.names()[i as int]);
            if compare_names(have.as_slice(), want.as_slice()) == 0 {
                return true;
            }
            i += 1;
        }
        false
    }

    /// Records that `name` passed. Where that is news, returns the new text of the progress
    /// file, for the caller to write; `None` leaves everything as it was.
    pub fn mark_done(&mut self, name: &str) -> (written: Option<String>)
        ensures
            final(self).set() == old(self).set().insert(name@),
            written is None <==> old(self).names().contains(name@),
            written is None ==> final(self).names() == old(self).names(),
            written matches Some(text) ==> text@ == progress_text(final(self).names()),
            all_clean(old(self).names()) && clean(name@) ==> all_clean(final(self).names()),
    {
        proof {
            use_type_invariant(&*self);
        }
        let ghost before = self.names();
        let mut done: Vec<String> = Vec::new();
        std::mem::swap(&mut done, &mut self.done);
        let inserted = insert_sorted(&mut done, String::from_str(name));
        self.done = done;
        if !inserted {
            return None;
        }
        proof {
            if all_clean(before) && clean(name@) {
                lemma_clean_after_insert(before, self.names(), name@);
            }
        }
        let mut out = chars_of("# ratlings progress — one finished lesson per line\n");
        let ghost names = self.names();
        let mut i: usize = 0;
        while i < self.done.len()
            invariant
                i <= self.done@.len(),
                names == self.names(),
                out@ == progress_text(names.take(i as int)),
            decreases self.done.len() - i,
        {
            assert(names.take(i + 1).drop_last() =~= names.take(i as int));
            assert(names.take(i + 1).last() == self.done@[i as int]@);
            append_str(&mut out, self.done[i].as_str());
            out.push('\n');
            i += 1;
        }
        assert(names.take(self.done.len() as int) =~= names);
        Some(string_of(out.as_slice()))
    }

    /// The first lesson not yet passed, or the last one if all are.
    pub fn next_index(&self) -> (r: usize)
        ensures
            r == first_unfinished(catalog_names(), self.set(), 0),
            r < catalog().len(),
    {
        proof {
            lemma_first_unfinished(catalog_names(), self.set(), 0);
        }
        let all = exercises();
        let mut i: usize = 0;
        while i < all.len()
            invariant
                i <= all@.len(),
                all@.len() == catalog().len(),
                forall|k: int| 0 <= k < all@.len() ==> exercise_view(#[trigger] all@[k]) == catalog()[k],
                first_unfinished(catalog_names(), self.set(), i as int) == first_unfinished(
                    catalog_names(),
                    self.set(),
                    0,
                ),
            decreases all.len() - i,
        {
            assert(exercise_view(all@[i as int]) == catalog()[i as int]);
            assert(catalog_names()[i as int] == all@[i as int].name@);
            if !self.is_done(all[i].name.as_str()) {
                return i;
            }
            i += 1;
        }
        all.len() - 1
    }

    /// The progress file, in the crate directory `manifest_dir`.
    pub fn file(manifest_dir: &str) -> (f: String)
        ensures
            f@ == path_join(manifest_dir@, ".ratlings-progress"@),
    {
        let name = chars_of(".ratlings-progress");
        path_join_exec(manifest_dir, name.as_slice())
    }
}

} // verus!
