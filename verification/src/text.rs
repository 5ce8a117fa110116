//! Character sequences: the model of text that every other module uses, with
//! the executable scans that compute it (lines, trimming, searching, splitting).
use vstd::prelude::*;

verus! {

// ───────────────────────────── characters ─────────────────────────────

/// Unicode `White_Space`, the set that `char::is_whitespace` tests.
pub open spec fn is_ws(c: char) -> bool {
    let n = c as u32;
    ||| 0x9 <= n <= 0xd
    ||| n == 0x20
    ||| n == 0x85
    ||| n == 0xa0
    ||| n == 0x1680
    ||| 0x2000 <= n <= 0x200a
    ||| n == 0x2028
    ||| n == 0x2029
    ||| n == 0x202f
    ||| n == 0x205f
    ||| n == 0x3000
}

pub fn is_whitespace(c: char) -> (b: bool)
    ensures
        b == is_ws(c),
{
    let n = c as u32;
    (0x9 <= n && n <= 0xd) || n == 0x20 || n == 0x85 || n == 0xa0 || n == 0x1680 || (0x2000 <= n
        && n <= 0x200a) || n == 0x2028 || n == 0x2029 || n == 0x202f || n == 0x205f || n == 0x3000
}

pub open spec fn is_digit(c: char) -> bool {
    0x30 <= (c as u32) <= 0x39
}

pub fn is_ascii_digit(c: char) -> (b: bool)
    ensures
        b == is_digit(c),
{
    let n = c as u32;
    0x30 <= n && n <= 0x39
}

pub open spec fn is_alnum(c: char) -> bool {
    let n = c as u32;
    ||| 0x30 <= n <= 0x39
    ||| 0x41 <= n <= 0x5a
    ||| 0x61 <= n <= 0x7a
}

pub fn is_ascii_alphanumeric(c: char) -> (b: bool)
    ensures
        b == is_alnum(c),
{
    let n = c as u32;
    (0x30 <= n && n <= 0x39) || (0x41 <= n && n <= 0x5a) || (0x61 <= n && n <= 0x7a)
}

// ───────────────────────────── conversions ─────────────────────────────

/// Appends one character to a `String`.
/// Trusted: `String::push`, which std documents as appending the given char to the end.
#[verifier::external_body]
fn push_char(s: &mut String, c: char)
    ensures
        final(s)@ == old(s)@.push(c),
{
    s.push(c);
}

pub fn chars_of(s: &str) -> (v: Vec<char>)
    ensures
        v@ == s@,
{
    let mut v: Vec<char> = Vec::new();
    for c in it: s.chars()
        invariant
            v@ == it.seq().take(it.index() as int),
    {
        v.push(c);
    }
    v
}

pub fn string_of(v: &[char]) -> (s: String)
    ensures
        s@ == v@,
{
    let mut s = String::new();
    let mut i: usize = 0;
    while i < v.len()
        invariant
            i <= v.len(),
            s@ == v@.take(i as int),
        decreases v.len() - i,
    {
        push_char(&mut s, v[i]);
        i += 1;
        assert(s@ =~= v@.take(i as int));
    }
    assert(v@.take(v.len() as int) =~= v@);
    s
}

pub fn append_chars(out: &mut Vec<char>, src: &[char])
    ensures
        final(out)@ == old(out)@ + src@,
{
    let ghost start = out@;
    let mut i: usize = 0;
    while i < src.len()
        invariant
            i <= src.len(),
            out@ == start + src@.take(i as int),
        decreases src.len() - i,
    {
        out.push(src[i]);
        i += 1;
        assert(out@ =~= start + src@.take(i as int));
    }
    assert(src@.take(src.len() as int) =~= src@);
}

pub fn append_str(out: &mut Vec<char>, src: &str)
    ensures
        final(out)@ == old(out)@ + src@,
{
    let v = chars_of(src);
    append_chars(out, v.as_slice());
}

pub fn slice_of(v: &[char], lo: usize, hi: usize) -> (r: Vec<char>)
    requires
        lo <= hi <= v.len(),
    ensures
        r@ == v@.subrange(lo as int, hi as int),
{
    let mut r: Vec<char> = Vec::new();
    let mut i: usize = lo;
    while i < hi
        invariant
            lo <= i <= hi <= v.len(),
            r@ == v@.subrange(lo as int, i as int),
        decreases hi - i,
    {
        r.push(v[i]);
        i += 1;
        assert(r@ =~= v@.subrange(lo as int, i as int));
    }
    r
}

// ───────────────────────────── searching ─────────────────────────────

/// `p` occurs in `s` starting at index `i`.
pub open spec fn matches_at(s: Seq<char>, p: Seq<char>, i: int) -> bool {
    &&& 0 <= i
    &&& i + p.len() <= s.len()
    &&& forall|k: int| 0 <= k < p.len() ==> #[trigger] s[i + k] == p[k]
}

/// The first index at or after `from` where `p` occurs in `s`.
pub open spec fn find_from(s: Seq<char>, p: Seq<char>, from: int) -> Option<int>
    decreases s.len() - from,
{
    if from < 0 || from + p.len() > s.len() {
        None
    } else if matches_at(s, p, from) {
        Some(from)
    } else {
        find_from(s, p, from + 1)
    }
}

pub open spec fn find(s: Seq<char>, p: Seq<char>) -> Option<int> {
    find_from(s, p, 0)
}

pub open spec fn contains(s: Seq<char>, p: Seq<char>) -> bool {
    find(s, p) is Some
}

pub open spec fn starts_with(s: Seq<char>, p: Seq<char>) -> bool {
    matches_at(s, p, 0)
}

pub open spec fn ends_with(s: Seq<char>, p: Seq<char>) -> bool {
    matches_at(s, p, s.len() - p.len())
}

/// What `find_from` returns is the first occurrence, and `None` means there is none.
pub proof fn lemma_find_from(s: Seq<char>, p: Seq<char>, from: int)
    requires
        0 <= from,
    ensures
        find_from(s, p, from) matches Some(i) ==> from <= i && matches_at(s, p, i) && forall|
            j: int,
        |
            from <= j < i ==> !matches_at(s, p, j),
        find_from(s, p, from) is None ==> forall|j: int| from <= j ==> !matches_at(s, p, j),
    decreases s.len() - from,
{
    if from + p.len() > s.len() {
    } else if matches_at(s, p, from) {
    } else {
        lemma_find_from(s, p, from + 1);
    }
}

pub fn matches_at_exec(s: &[char], p: &[char], i: usize) -> (b: bool)
    ensures
        b == matches_at(s@, p@, i as int),
{
    if i > s.len() || p.len() > s.len() - i {
        return false;
    }
    let mut k: usize = 0;
    while k < p.len()
        invariant
            k <= p.len(),
            i + p.len() <= s.len(),
            forall|m: int| 0 <= m < k ==> #[trigger] s@[i + m] == p@[m],
        decreases p.len() - k,
    {
        if s[i + k] != p[k] {
            assert(s@[i + k as int] != p@[k as int]);
            return false;
        }
        k += 1;
    }
    true
}

pub fn find_from_exec(s: &[char], p: &[char], from: usize) -> (r: Option<usize>)
    ensures
        r matches Some(i) ==> find_from(s@, p@, from as int) == Some(i as int),
        r is None ==> find_from(s@, p@, from as int) is None,
{
    let mut i = from;
    while i <= s.len() && p.len() <= s.len() - i
        invariant
            from <= i,
            find_from(s@, p@, from as int) == find_from(s@, p@, i as int),
        decreases s.len() + 1 - i,
    {
        if matches_at_exec(s, p, i) {
            return Some(i);
        }
        i += 1;
    }
    None
}

/// A prefix as long as the whole sequence is the whole sequence.
pub proof fn lemma_starts_with_same_len(s: Seq<char>, p: Seq<char>)
    requires
        starts_with(s, p),
        s.len() == p.len(),
    ensures
        s == p,
{
    assert forall|k: int| 0 <= k < s.len() implies s[k] == p[k] by {
        assert(s[0 + k] == p[k]);
    }
    assert(s =~= p);
}

/// An occurrence at `i` is a prefix of what follows `i`.
pub proof fn lemma_matches_at_skip(s: Seq<char>, p: Seq<char>, i: int)
    requires
        0 <= i <= s.len(),
    ensures
        matches_at(s, p, i) <==> starts_with(s.skip(i), p),
{
    let t = s.skip(i);
    if matches_at(s, p, i) {
        assert forall|k: int| 0 <= k < p.len() implies #[trigger] t[0 + k] == p[k] by {
            assert(s[i + k] == p[k]);
        }
    }
    if starts_with(t, p) {
        assert forall|k: int| 0 <= k < p.len() implies #[trigger] s[i + k] == p[k] by {
            assert(t[0 + k] == p[k]);
        }
    }
}

pub fn starts_with_exec(s: &[char], p: &[char]) -> (b: bool)
    ensures
        b == starts_with(s@, p@),
{
    matches_at_exec(s, p, 0)
}

pub fn ends_with_char(s: &[char], c: char) -> (b: bool)
    ensures
        b == (s@.len() > 0 && s@.last() == c),
{
    s.len() > 0 && s[s.len() - 1] == c
}

/// The first index at or after `from` that holds `c`, or `None`.
pub open spec fn find_char_from(s: Seq<char>, c: char, from: int) -> Option<int>
    decreases s.len() - from,
{
    if from < 0 || from >= s.len() {
        None
    } else if s[from] == c {
        Some(from)
    } else {
        find_char_from(s, c, from + 1)
    }
}

pub proof fn lemma_find_char_from(s: Seq<char>, c: char, from: int)
    requires
        0 <= from,
    ensures
        find_char_from(s, c, from) matches Some(i) ==> from <= i < s.len() && s[i] == c && forall|
            j: int,
        |
            from <= j < i ==> s[j] != c,
        find_char_from(s, c, from) is None ==> forall|j: int| from <= j < s.len() ==> s[j] != c,
    decreases s.len() - from,
{
    if from >= s.len() {
    } else if s[from] == c {
    } else {
        lemma_find_char_from(s, c, from + 1);
    }
}

// ───────────────────────────── trimming ─────────────────────────────

/// The first index at or after `i` that does not hold whitespace.
pub open spec fn skip_ws(s: Seq<char>, i: int) -> int
    decreases s.len() - i,
{
    if 0 <= i < s.len() && is_ws(s[i]) {
        skip_ws(s, i + 1)
    } else {
        i
    }
}

/// Walking back from `j`, no further than `lo`, the first end that follows no whitespace.
pub open spec fn back_ws(s: Seq<char>, lo: int, j: int) -> int
    decreases j - lo,
{
    if lo < j <= s.len() && is_ws(s[j - 1]) {
        back_ws(s, lo, j - 1)
    } else {
        j
    }
}

pub open spec fn trim_start(s: Seq<char>) -> Seq<char> {
    s.subrange(skip_ws(s, 0), s.len() as int)
}

pub open spec fn trim_end(s: Seq<char>) -> Seq<char> {
    s.subrange(0, back_ws(s, 0, s.len() as int))
}

pub open spec fn trim(s: Seq<char>) -> Seq<char> {
    let a = skip_ws(s, 0);
    s.subrange(a, back_ws(s, a, s.len() as int))
}

pub proof fn lemma_skip_ws(s: Seq<char>, i: int)
    requires
        0 <= i <= s.len(),
    ensures
        i <= skip_ws(s, i) <= s.len(),
        forall|k: int| i <= k < skip_ws(s, i) ==> is_ws(#[trigger] s[k]),
        skip_ws(s, i) < s.len() ==> !is_ws(s[skip_ws(s, i)]),
    decreases s.len() - i,
{
    if i < s.len() && is_ws(s[i]) {
        lemma_skip_ws(s, i + 1);
    }
}

pub proof fn lemma_back_ws(s: Seq<char>, lo: int, j: int)
    requires
        0 <= lo <= j <= s.len(),
    ensures
        lo <= back_ws(s, lo, j) <= j,
        forall|k: int| back_ws(s, lo, j) <= k < j ==> is_ws(#[trigger] s[k]),
        back_ws(s, lo, j) > lo ==> !is_ws(s[back_ws(s, lo, j) - 1]),
    decreases j - lo,
{
    if lo < j && is_ws(s[j - 1]) {
        lemma_back_ws(s, lo, j - 1);
    }
}

pub fn skip_ws_exec(s: &[char], i: usize) -> (r: usize)
    requires
        i <= s.len(),
    ensures
        r == skip_ws(s@, i as int),
        i <= r <= s.len(),
{
    proof {
        lemma_skip_ws(s@, i as int);
    }
    let mut k = i;
    while k < s.len() && is_whitespace(s[k])
        invariant
            i <= k <= s.len(),
            skip_ws(s@, k as int) == skip_ws(s@, i as int),
        decreases s.len() - k,
    {
        k += 1;
    }
    k
}

pub fn back_ws_exec(s: &[char], lo: usize, j: usize) -> (r: usize)
    requires
        lo <= j <= s.len(),
    ensures
        r == back_ws(s@, lo as int, j as int),
        lo <= r <= j,
{
    proof {
        lemma_back_ws(s@, lo as int, j as int);
    }
    let mut k = j;
    while k > lo && is_whitespace(s[k - 1])
        invariant
            lo <= k <= j <= s.len(),
            back_ws(s@, lo as int, k as int) == back_ws(s@, lo as int, j as int),
        decreases k,
    {
        k -= 1;
    }
    k
}

pub fn trim_exec(s: &[char]) -> (r: Vec<char>)
    ensures
        r@ == trim(s@),
{
    let a = skip_ws_exec(s, 0);
    let b = back_ws_exec(s, a, s.len());
    slice_of(s, a, b)
}

pub fn trim_start_exec(s: &[char]) -> (r: Vec<char>)
    ensures
        r@ == trim_start(s@),
{
    let a = skip_ws_exec(s, 0);
    slice_of(s, a, s.len())
}

pub fn trim_end_exec(s: &[char]) -> (r: Vec<char>)
    ensures
        r@ == trim_end(s@),
{
    let b = back_ws_exec(s, 0, s.len());
    slice_of(s, 0, b)
}

// ───────────────────────────── splitting ─────────────────────────────

/// Drops one `'\r'` at the end, as a `"\r\n"` line ending leaves it.
pub open spec fn strip_cr(l: Seq<char>) -> Seq<char> {
    if l.len() > 0 && l.last() == '\r' {
        l.drop_last()
    } else {
        l
    }
}

/// The lines of `s[start..]`, scanning from `i`, as `str::lines` yields them:
/// split at `'\n'`, a `'\r'` before it dropped, and no empty line after a final `'\n'`.
pub open spec fn lines_from(s: Seq<char>, start: int, i: int) -> Seq<Seq<char>>
    decreases s.len() - i,
{
    if i >= s.len() {
        if start < s.len() {
            seq![s.subrange(start, s.len() as int)]
        } else {
            seq![]
        }
    } else if s[i] == '\n' {
        seq![strip_cr(s.subrange(start, i))] + lines_from(s, i + 1, i + 1)
    } else {
        lines_from(s, start, i + 1)
    }
}

pub open spec fn lines(s: Seq<char>) -> Seq<Seq<char>> {
    lines_from(s, 0, 0)
}

/// No line break between `i` and `j` leaves the lines the same, scanned from either.
pub proof fn lemma_lines_run(s: Seq<char>, start: int, i: int, j: int)
    requires
        0 <= start <= i <= j <= s.len(),
        forall|k: int| i <= k < j ==> s[k] != '\n',
    ensures
        lines_from(s, start, i) == lines_from(s, start, j),
    decreases j - i,
{
    if i < j {
        lemma_lines_run(s, start, i + 1, j);
    }
}

/// Scanning what follows `a` in `a + b` is scanning `b`.
pub proof fn lemma_lines_shift(a: Seq<char>, b: Seq<char>, k: int, m: int)
    requires
        0 <= k <= m <= b.len(),
    ensures
        lines_from(a + b, a.len() + k, a.len() + m) == lines_from(b, k, m),
    decreases b.len() - m,
{
    let s = a + b;
    if m < b.len() {
        assert(s[a.len() + m] == b[m]);
        if b[m] == '\n' {
            lemma_lines_shift(a, b, m + 1, m + 1);
            assert(s.subrange(a.len() + k, a.len() + m) =~= b.subrange(k, m));
        } else {
            lemma_lines_shift(a, b, k, m + 1);
        }
    } else {
        assert(s.subrange(a.len() + k, s.len() as int) =~= b.subrange(k, b.len() as int));
    }
}

/// Text after a line break starts lines of its own.
pub proof fn lemma_lines_append_from(a: Seq<char>, b: Seq<char>, start: int, i: int)
    requires
        a.len() > 0,
        a.last() == '\n',
        0 <= start <= i < a.len(),
    ensures
        lines_from(a + b, start, i) == lines_from(a, start, i) + lines(b),
    decreases a.len() - i,
{
    let s = a + b;
    assert(s[i] == a[i]);
    if a[i] == '\n' {
        assert(s.subrange(start, i) =~= a.subrange(start, i));
        lemma_lines_shift(a, b, 0, 0);
        if i + 1 < a.len() {
            lemma_lines_append_from(a, b, i + 1, i + 1);
        } else {
            assert(lines_from(a, i + 1, i + 1) =~= Seq::<Seq<char>>::empty());
        }
        let x = seq![strip_cr(a.subrange(start, i))];
        assert(x + (lines_from(a, i + 1, i + 1) + lines(b)) =~= (x + lines_from(a, i + 1, i + 1))
            + lines(b));
        if i + 1 == a.len() {
            assert(lines_from(a, i + 1, i + 1) + lines(b) =~= lines(b));
        }
    } else {
        lemma_lines_append_from(a, b, start, i + 1);
    }
}

/// The lines of `a + b`, where `a` ends with a line break, are those of `a`, then those of `b`.
pub proof fn lemma_lines_append(a: Seq<char>, b: Seq<char>)
    requires
        a.len() > 0,
        a.last() == '\n',
    ensures
        lines(a + b) == lines(a) + lines(b),
{
    lemma_lines_append_from(a, b, 0, 0);
}

/// One line break at the end of text that has none makes one line.
pub proof fn lemma_lines_one(x: Seq<char>)
    requires
        forall|k: int| 0 <= k < x.len() ==> x[k] != '\n',
    ensures
        lines(x + seq!['\n']) == seq![strip_cr(x)],
{
    let s = x + seq!['\n'];
    assert forall|k: int| 0 <= k < x.len() implies s[k] != '\n' by {
        assert(s[k] == x[k]);
    }
    lemma_lines_run(s, 0, 0, x.len() as int);
    assert(s.subrange(0, x.len() as int) =~= x);
    assert(lines_from(s, s.len() as int, s.len() as int) =~= Seq::<Seq<char>>::empty());
    assert(seq![strip_cr(x)] + Seq::<Seq<char>>::empty() =~= seq![strip_cr(x)]);
}

/// No line holds a line break.
pub proof fn lemma_lines_no_break(s: Seq<char>, start: int, i: int)
    requires
        0 <= start <= i <= s.len(),
        forall|k: int| start <= k < i ==> s[k] != '\n',
    ensures
        forall|j: int, k: int|
            0 <= j < lines_from(s, start, i).len() && 0 <= k < lines_from(s, start, i)[j].len()
                ==> lines_from(s, start, i)[j][k] != '\n',
    decreases s.len() - i,
{
    let ls = lines_from(s, start, i);
    if i >= s.len() {
        if start < s.len() {
            assert(ls == seq![s.subrange(start, s.len() as int)]);
            assert forall|j: int, k: int| 0 <= j < ls.len() && 0 <= k < ls[j].len() implies ls[j][k]
                != '\n' by {
                assert(ls[j][k] == s[start + k]);
            }
        }
    } else if s[i] == '\n' {
        lemma_lines_no_break(s, i + 1, i + 1);
        let rest = lines_from(s, i + 1, i + 1);
        let x = strip_cr(s.subrange(start, i));
        assert(ls == seq![x] + rest);
        assert forall|j: int, k: int| 0 <= j < ls.len() && 0 <= k < ls[j].len() implies ls[j][k]
            != '\n' by {
            if j == 0 {
                assert(ls[j][k] == s[start + k]);
            } else {
                assert(ls[j] == rest[j - 1]);
            }
        }
    } else {
        lemma_lines_no_break(s, start, i + 1);
        let rest = lines_from(s, start, i + 1);
        assert(ls == rest);
        assert forall|j: int, k: int| 0 <= j < ls.len() && 0 <= k < ls[j].len() implies ls[j][k]
            != '\n' by {
            assert(ls[j] == rest[j]);
        }
    }
}

/// Trimming what is trimmed changes nothing.
pub proof fn lemma_trim_trimmed(l: Seq<char>)
    ensures
        trim(trim(l)) == trim(l),
{
    let t = trim(l);
    lemma_skip_ws(l, 0);
    let a = skip_ws(l, 0);
    lemma_back_ws(l, a, l.len() as int);
    let b = back_ws(l, a, l.len() as int);
    if t.len() > 0 {
        assert(t[0] == l[a]);
        assert(t[t.len() - 1] == l[b - 1]);
        if a == l.len() || is_ws(l[a]) {
            assert(false);
        }
    } else {
        assert(trim(t) =~= t);
    }
    assert(trim(t) =~= t);
}

/// Trimming leaves no whitespace at either end.
pub proof fn lemma_trim_ends(l: Seq<char>)
    ensures
        trim(l).len() > 0 ==> !is_ws(trim(l)[0]) && !is_ws(trim(l).last()),
        forall|k: int| 0 <= k < trim(l).len() ==> trim(l)[k] == l[skip_ws(l, 0) + k],
{
    lemma_skip_ws(l, 0);
    let a = skip_ws(l, 0);
    lemma_back_ws(l, a, l.len() as int);
}

/// The pieces of `s[start..]` between the separators `c`, scanning from `i`, as `str::split`.
pub open spec fn split_from(s: Seq<char>, c: char, start: int, i: int) -> Seq<Seq<char>>
    decreases s.len() - i,
{
    if i >= s.len() {
        seq![s.subrange(start, s.len() as int)]
    } else if s[i] == c {
        seq![s.subrange(start, i)] + split_from(s, c, i + 1, i + 1)
    } else {
        split_from(s, c, start, i + 1)
    }
}

pub open spec fn split_char(s: Seq<char>, c: char) -> Seq<Seq<char>> {
    split_from(s, c, 0, 0)
}

/// Splitting always yields at least one piece.
pub proof fn lemma_split_nonempty(s: Seq<char>, c: char, start: int, i: int)
    ensures
        split_from(s, c, start, i).len() >= 1,
    decreases s.len() - i,
{
    if i < s.len() {
        if s[i] == c {
            lemma_split_nonempty(s, c, i + 1, i + 1);
        } else {
            lemma_split_nonempty(s, c, start, i + 1);
        }
    }
}

/// The maximal runs of non-whitespace in `s`, scanning from `i`; `start` is where the current
/// run began, or negative outside a run. This is `str::split_whitespace`.
pub open spec fn words_from(s: Seq<char>, start: int, i: int) -> Seq<Seq<char>>
    decreases s.len() - i,
{
    if i >= s.len() {
        if start >= 0 {
            seq![s.subrange(start, s.len() as int)]
        } else {
            seq![]
        }
    } else if is_ws(s[i]) {
        if start >= 0 {
            seq![s.subrange(start, i)] + words_from(s, -1, i + 1)
        } else {
            words_from(s, -1, i + 1)
        }
    } else {
        words_from(s, if start >= 0 {
            start
        } else {
            i
        }, i + 1)
    }
}

pub open spec fn words(s: Seq<char>) -> Seq<Seq<char>> {
    words_from(s, -1, 0)
}

/// Lines holding no line break and not ending in `'\r'`, each followed by a line break, read
/// back as the same lines.
proof fn lemma_lines_join_nl(ls: Seq<Seq<char>>)
    requires
        ls.len() > 0,
        forall|i: int, k: int| 0 <= i < ls.len() && 0 <= k < ls[i].len() ==> #[trigger] ls[i][k] != '\n',
        forall|i: int| 0 <= i < ls.len() ==> strip_cr(#[trigger] ls[i]) == ls[i],
    ensures
        lines(join_lines(ls) + seq!['\n']) == ls,
    decreases ls.len(),
{
    if ls.len() == 1 {
        assert(forall|k: int| 0 <= k < ls[0].len() ==> ls[0][k] != '\n');
        lemma_lines_one(ls[0]);
        assert(seq![ls[0]] =~= ls);
    } else {
        let init = ls.drop_last();
        assert forall|i: int, k: int| 0 <= i < init.len() && 0 <= k < init[i].len() implies #[trigger] init[i][k]
            != '\n' by {
            assert(init[i] == ls[i]);
        }
        assert forall|i: int| 0 <= i < init.len() implies strip_cr(#[trigger] init[i]) == init[i] by {
            assert(init[i] == ls[i]);
        }
        lemma_lines_join_nl(init);
        let a = join_lines(init) + seq!['\n'];
        let l = ls.last();
        assert(forall|k: int| 0 <= k < l.len() ==> l[k] != '\n');
        lemma_lines_append(a, l + seq!['\n']);
        lemma_lines_one(l);
        assert(join_lines(ls) + seq!['\n'] =~= a + (l + seq!['\n']));
        assert(init + seq![l] =~= ls);
    }
}

/// Lines holding no line break, none but the last ending in `'\r'` and the last not empty,
/// joined with line breaks, read back as the same lines.
pub proof fn lemma_lines_join(ls: Seq<Seq<char>>)
    requires
        ls.len() > 0,
        ls.last().len() > 0,
        forall|i: int, k: int| 0 <= i < ls.len() && 0 <= k < ls[i].len() ==> #[trigger] ls[i][k] != '\n',
        forall|i: int| 0 <= i < ls.len() - 1 ==> strip_cr(#[trigger] ls[i]) == ls[i],
    ensures
        lines(join_lines(ls)) == ls,
{
    let l = ls.last();
    assert(forall|k: int| 0 <= k < l.len() ==> l[k] != '\n');
    lemma_lines_run(l, 0, 0, l.len() as int);
    assert(l.subrange(0, l.len() as int) =~= l);
    if ls.len() == 1 {
        assert(seq![ls[0]] =~= ls);
    } else {
        let init = ls.drop_last();
        assert forall|i: int, k: int| 0 <= i < init.len() && 0 <= k < init[i].len() implies #[trigger] init[i][k]
            != '\n' by {
            assert(init[i] == ls[i]);
        }
        assert forall|i: int| 0 <= i < init.len() implies strip_cr(#[trigger] init[i]) == init[i] by {
            assert(init[i] == ls[i]);
        }
        lemma_lines_join_nl(init);
        let a = join_lines(init) + seq!['\n'];
        lemma_lines_append(a, l);
        assert(join_lines(ls) =~= a + l);
        assert(init + seq![l] =~= ls);
    }
}

/// Lines joined with `'\n'` between them.
pub open spec fn join_lines(ls: Seq<Seq<char>>) -> Seq<char>
    decreases ls.len(),
{
    if ls.len() == 0 {
        Seq::empty()
    } else if ls.len() == 1 {
        ls[0]
    } else {
        join_lines(ls.drop_last()) + seq!['\n'] + ls.last()
    }
}

/// Lines joined with `'\n'` between them.
pub fn join_exec(ls: &Vec<Vec<char>>) -> (out: Vec<char>)
    ensures
        out@ == join_lines(views(ls@)),
{
    let ghost all = views(ls@);
    let mut out: Vec<char> = Vec::new();
    let mut i: usize = 0;
    while i < ls.len()
        invariant
            i <= ls.len(),
            all == views(ls@),
            out@ == join_lines(all.take(i as int)),
        decreases ls.len() - i,
    {
        assert(all[i as int] == ls@[i as int]@);
        assert(all.take(i + 1).drop_last() =~= all.take(i as int));
        if i > 0 {
            out.push('\n');
        }
        append_chars(&mut out, ls[i].as_slice());
        i += 1;
        assert(out@ =~= join_lines(all.take(i as int)));
    }
    assert(all.take(ls.len() as int) =~= all);
    out
}

/// The views of a vector of character vectors.
pub open spec fn views(v: Seq<Vec<char>>) -> Seq<Seq<char>> {
    Seq::new(v.len(), |i: int| v[i]@)
}

/// The views of a sequence of strings.
pub open spec fn string_views(v: Seq<String>) -> Seq<Seq<char>> {
    Seq::new(v.len(), |i: int| v[i]@)
}

pub fn lines_exec(s: &[char]) -> (r: Vec<Vec<char>>)
    ensures
        views(r@) == lines(s@),
{
    let mut r: Vec<Vec<char>> = Vec::new();
    let mut start: usize = 0;
    let mut i: usize = 0;
    while i < s.len()
        invariant
            start <= i <= s.len(),
            views(r@) + lines_from(s@, start as int, i as int) == lines(s@),
        decreases s.len() - i,
    {
        if s[i] == '\n' {
            let mut line = slice_of(s, start, i);
            if line.len() > 0 && line[line.len() - 1] == '\r' {
                line.pop();
            }
            let ghost before = views(r@);
            r.push(line);
            assert(views(r@) =~= before + seq![strip_cr(s@.subrange(start as int, i as int))]);
            start = i + 1;
        }
        i += 1;
    }
    if start < s.len() {
        let ghost before = views(r@);
        r.push(slice_of(s, start, s.len()));
        assert(views(r@) =~= before + seq![s@.subrange(start as int, s@.len() as int)]);
    }
    assert(views(r@) =~= lines(s@));
    r
}

pub fn split_char_exec(s: &[char], c: char) -> (r: Vec<Vec<char>>)
    ensures
        views(r@) == split_char(s@, c),
{
    let mut r: Vec<Vec<char>> = Vec::new();
    let mut start: usize = 0;
    let mut i: usize = 0;
    while i < s.len()
        invariant
            start <= i <= s.len(),
            views(r@) + split_from(s@, c, start as int, i as int) == split_char(s@, c),
        decreases s.len() - i,
    {
        if s[i] == c {
            let ghost before = views(r@);
            r.push(slice_of(s, start, i));
            assert(views(r@) =~= before + seq![s@.subrange(start as int, i as int)]);
            start = i + 1;
        }
        i += 1;
    }
    let ghost before = views(r@);
    r.push(slice_of(s, start, s.len()));
    assert(views(r@) =~= before + seq![s@.subrange(start as int, s@.len() as int)]);
    assert(views(r@) =~= split_char(s@, c));
    r
}

pub fn words_exec(s: &[char]) -> (r: Vec<Vec<char>>)
    ensures
        views(r@) == words(s@),
{
    let mut r: Vec<Vec<char>> = Vec::new();
    let mut in_word = false;
    let mut start: usize = 0;
    let mut i: usize = 0;
    while i < s.len()
        invariant
            i <= s.len(),
            in_word ==> start < i,
            views(r@) + words_from(s@, if in_word {
                start as int
            } else {
                -1
            }, i as int) == words(s@),
        decreases s.len() - i,
    {
        if is_whitespace(s[i]) {
            if in_word {
                let ghost before = views(r@);
                r.push(slice_of(s, start, i));
                assert(views(r@) =~= before + seq![s@.subrange(start as int, i as int)]);
                in_word = false;
            }
        } else if !in_word {
            in_word = true;
            start = i;
        }
        i += 1;
    }
    if in_word {
        let ghost before = views(r@);
        r.push(slice_of(s, start, s.len()));
        assert(views(r@) =~= before + seq![s@.subrange(start as int, s@.len() as int)]);
    }
    assert(views(r@) =~= words(s@));
    r
}

} // verus!
