use vstd::prelude::*;

verus! {

/// The characters that carry Unicode's White_Space property.
pub open spec fn is_white(c: char) -> bool {
    ('\u{9}' <= c && c <= '\u{d}') || c == ' ' || c == '\u{85}' || c == '\u{a0}'
        || c == '\u{1680}' || ('\u{2000}' <= c && c <= '\u{200a}') || c == '\u{2028}'
        || c == '\u{2029}' || c == '\u{202f}' || c == '\u{205f}' || c == '\u{3000}'
}

pub fn is_whitespace(c: char) -> (r: bool)
    ensures
        r == is_white(c),
{
    ('\u{9}' <= c && c <= '\u{d}') || c == ' ' || c == '\u{85}' || c == '\u{a0}'
        || c == '\u{1680}' || ('\u{2000}' <= c && c <= '\u{200a}') || c == '\u{2028}'
        || c == '\u{2029}' || c == '\u{202f}' || c == '\u{205f}' || c == '\u{3000}'
}

/// `s` without its leading white space.
pub open spec fn trim_start(s: Seq<char>) -> Seq<char>
    decreases s.len(),
{
    if s.len() > 0 && is_white(s[0]) {
        trim_start(s.drop_first())
    } else {
        s
    }
}

/// `s` without its trailing white space.
pub open spec fn trim_end(s: Seq<char>) -> Seq<char>
    decreases s.len(),
{
    if s.len() > 0 && is_white(s.last()) {
        trim_end(s.drop_last())
    } else {
        s
    }
}

/// `s` without white space at either end.
pub open spec fn trim(s: Seq<char>) -> Seq<char> {
    trim_end(trim_start(s))
}


/// What `str::split("::")` yields on `s`, scanning from `i` with the current piece begun at `start`.
pub open spec fn pieces_from(s: Seq<char>, start: int, i: int) -> Seq<Seq<char>>
    recommends
        0 <= start <= i <= s.len(),
    decreases s.len() - i,
{
    if i + 1 >= s.len() {
        seq![s.subrange(start, s.len() as int)]
    } else if s[i] == ':' && s[i + 1] == ':' {
        seq![s.subrange(start, i)] + pieces_from(s, i + 2, i + 2)
    } else {
        pieces_from(s, start, i + 1)
    }
}

/// The pieces of `s` between the separators `::`, read left to right; there is always one
/// more piece than separators.
pub open spec fn split_pieces(s: Seq<char>) -> Seq<Seq<char>> {
    pieces_from(s, 0, 0)
}

/// Each piece trimmed.
pub open spec fn trim_all(p: Seq<Seq<char>>) -> Seq<Seq<char>> {
    p.map_values(|x: Seq<char>| trim(x))
}

/// The pieces that are not empty, in order.
pub open spec fn keep_nonempty(p: Seq<Seq<char>>) -> Seq<Seq<char>>
    decreases p.len(),
{
    if p.len() == 0 {
        p
    } else if p.last().len() > 0 {
        keep_nonempty(p.drop_last()).push(p.last())
    } else {
        keep_nonempty(p.drop_last())
    }
}

/// The words of `w` joined by single spaces.
pub open spec fn join_words(w: Seq<Seq<char>>) -> Seq<char>
    decreases w.len(),
{
    if w.len() == 0 {
        Seq::empty()
    } else if w.len() == 1 {
        w[0]
    } else {
        join_words(w.drop_last()) + seq![' '] + w.last()
    }
}

/// The contents of a sequence of strings.
pub open spec fn views(v: Seq<String>) -> Seq<Seq<char>> {
    v.map_values(|s: String| s@)
}

/// `n` occurs in `h` as a contiguous run of characters.
pub open spec fn contains(h: Seq<char>, n: Seq<char>) -> bool {
    exists|i: int| 0 <= i && i + n.len() <= h.len() && #[trigger] h.subrange(i, i + n.len()) == n
}

/// What `str::to_lowercase` returns on `s`.
pub uninterp spec fn lower_of(s: Seq<char>) -> Seq<char>;

/// Relies on `str::to_lowercase`: the result depends on the characters alone, and an empty
/// string stays empty.
#[verifier::external_body]
pub(crate) fn lowercase(s: &str) -> (r: String)
    ensures
        r@ == lower_of(s@),
        s@.len() == 0 ==> r@.len() == 0,
{
    s.to_lowercase()
}

pub fn chars_of(s: &str) -> (r: Vec<char>)
    ensures
        r@ == s@,
{
    let n = s.unicode_len();
    let mut r: Vec<char> = Vec::new();
    let mut i: usize = 0;
    while i < n
        invariant
            n == s@.len(),
            i <= n,
            r@ == s@.subrange(0, i as int),
        decreases n - i,
    {
        r.push(s.get_char(i));
        i = i + 1;
    }
    assert(r@ =~= s@);
    r
}

/// The bounds of `v[lo..hi]` once white space is cut from both ends.
pub fn trim_bounds(v: &Vec<char>, lo: usize, hi: usize) -> (r: (usize, usize))
    requires
        lo <= hi <= v@.len(),
    ensures
        lo <= r.0 <= r.1 <= hi,
        v@.subrange(r.0 as int, r.1 as int) == trim(v@.subrange(lo as int, hi as int)),
{
    let mut a = lo;
    while a < hi && is_whitespace(v[a])
        invariant
            lo <= a <= hi <= v@.len(),
            trim_start(v@.subrange(lo as int, hi as int)) == trim_start(
                v@.subrange(a as int, hi as int),
            ),
        decreases hi - a,
    {
        assert(v@.subrange(a as int, hi as int).drop_first() =~= v@.subrange(
            a + 1,
            hi as int,
        ));
        a = a + 1;
    }
    let mut b = hi;
    while b > a && is_whitespace(v[b - 1])
        invariant
            lo <= a <= b <= hi <= v@.len(),
            trim_end(v@.subrange(a as int, hi as int)) == trim_end(
                v@.subrange(a as int, b as int),
            ),
        decreases b - a,
    {
        assert(v@.subrange(a as int, b as int).drop_last() =~= v@.subrange(
            a as int,
            b - 1,
        ));
        b = b - 1;
    }
    (a, b)
}

proof fn lemma_trim_all_push(p: Seq<Seq<char>>, x: Seq<char>)
    ensures
        trim_all(p.push(x)) == trim_all(p).push(trim(x)),
        keep_nonempty(trim_all(p.push(x))) == if trim(x).len() > 0 {
            keep_nonempty(trim_all(p)).push(trim(x))
        } else {
            keep_nonempty(trim_all(p))
        },
{
    assert(trim_all(p.push(x)) =~= trim_all(p).push(trim(x)));
    assert(trim_all(p.push(x)).drop_last() =~= trim_all(p));
}

/// The pieces of `s` between separators `::`, each trimmed; with `skip_empty`, only those
/// that are not empty.
pub fn split_trimmed(s: &str, skip_empty: bool) -> (r: Vec<String>)
    ensures
        views(r@) == if skip_empty {
            keep_nonempty(trim_all(split_pieces(s@)))
        } else {
            trim_all(split_pieces(s@))
        },
{
    let v = chars_of(s);
    let n = v.len();
    let mut r: Vec<String> = Vec::new();
    let mut start: usize = 0;
    let mut i: usize = 0;
    let ghost mut done: Seq<Seq<char>> = Seq::empty();
    while i < n && i + 1 < n
        invariant
            v@ == s@,
            n == v@.len(),
            start <= i <= n,
            split_pieces(s@) == done + pieces_from(s@, start as int, i as int),
            views(r@) == if skip_empty {
                keep_nonempty(trim_all(done))
            } else {
                trim_all(done)
            },
        decreases n - i,
    {
        if v[i] == ':' && v[i + 1] == ':' {
            let (a, b) = trim_bounds(&v, start, i);
            let piece = s.substring_char(a, b).to_owned();
            proof {
                lemma_trim_all_push(done, s@.subrange(start as int, i as int));
                assert(done + pieces_from(s@, start as int, i as int) =~= done.push(
                    s@.subrange(start as int, i as int),
                ) + pieces_from(s@, i + 2, i + 2));
                done = done.push(s@.subrange(start as int, i as int));
            }
            if !skip_empty || b > a {
                let ghost prev = r@;
                r.push(piece);
                assert(views(r@) =~= views(prev).push(piece@));
            }
            i = i + 2;
            start = i;
        } else {
            i = i + 1;
        }
    }
    let (a, b) = trim_bounds(&v, start, n);
    let piece = s.substring_char(a, b).to_owned();
    proof {
        lemma_trim_all_push(done, s@.subrange(start as int, n as int));
        assert(split_pieces(s@) =~= done.push(s@.subrange(start as int, n as int)));
    }
    if !skip_empty || b > a {
        let ghost prev = r@;
        r.push(piece);
        assert(views(r@) =~= views(prev).push(piece@));
    }
    r
}

/// The words joined by single spaces, as `[String]::join(" ")` does.
pub fn join_args(words: &Vec<String>) -> (r: String)
    ensures
        r@ == join_words(views(words@)),
{
    let mut r = String::new();
    let mut i: usize = 0;
    while i < words.len()
        invariant
            i <= words@.len(),
            r@ == join_words(views(words@.subrange(0, i as int))),
        decreases words@.len() - i,
    {
        proof {
            reveal_strlit(" ");
            assert(views(words@.subrange(0, i + 1)).drop_last() =~= views(
                words@.subrange(0, i as int),
            ));
        }
        if i > 0 {
            r.append(" ");
        }
        r.append(words[i].as_str());
        i = i + 1;
        proof {
            if i == 1 {
                assert(r@ =~= views(words@.subrange(0, i as int))[0]);
            } else {
                assert(r@ =~= join_words(views(words@.subrange(0, i - 1))) + seq![' ']
                    + views(words@.subrange(0, i as int)).last());
            }
        }
    }
    assert(words@.subrange(0, words@.len() as int) =~= words@);
    r
}

/// Whether `n` occurs in `h` at position `at`.
fn occurs_at(h: &Vec<char>, n: &Vec<char>, at: usize) -> (r: bool)
    requires
        at + n@.len() <= h@.len(),
    ensures
        r == (h@.subrange(at as int, at + n@.len()) == n@),
{
    let hl = h.len();
    let mut j: usize = 0;
    while j < n.len()
        invariant
            hl == h@.len(),
            at + n@.len() <= h@.len(),
            j <= n@.len(),
            forall|k: int| 0 <= k < j ==> h@[at + k] == n@[k],
        decreases n@.len() - j,
    {
        if h[at + j] != n[j] {
            assert(h@.subrange(at as int, at + n@.len())[j as int] != n@[j as int]);
            return false;
        }
        j = j + 1;
    }
    assert(h@.subrange(at as int, at + n@.len()) =~= n@);
    true
}

/// Whether `n` occurs in `h`, as `str::contains` answers.
pub fn contains_chars(h: &Vec<char>, n: &Vec<char>) -> (r: bool)
    ensures
        r == contains(h@, n@),
{
    if n.len() > h.len() {
        return false;
    }
    let last = h.len() - n.len();
    let mut i: usize = 0;
    loop
        invariant
            i <= last,
            last + n@.len() == h@.len(),
            forall|k: int| 0 <= k < i ==> #[trigger] h@.subrange(k, k + n@.len()) != n@,
        ensures
            forall|k: int| 0 <= k <= last ==> #[trigger] h@.subrange(k, k + n@.len()) != n@,
        decreases last - i,
    {
        if occurs_at(h, n, i) {
            return true;
        }
        if i == last {
            break;
        }
        i = i + 1;
    }
    false
}

/// Whether `s` begins with `p`.
pub fn starts_with_chars(s: &Vec<char>, p: &Vec<char>) -> (r: bool)
    ensures
        r == (p@.len() <= s@.len() && s@.subrange(0, p@.len() as int) == p@),
{
    if p.len() > s.len() {
        return false;
    }
    occurs_at(s, p, 0)
}

/// Whether `s` ends with `p`.
pub fn ends_with_chars(s: &Vec<char>, p: &Vec<char>) -> (r: bool)
    ensures
        r == (p@.len() <= s@.len() && s@.subrange(s@.len() - p@.len(), s@.len() as int) == p@),
{
    if p.len() > s.len() {
        return false;
    }
    occurs_at(s, p, s.len() - p.len())
}

} // verus!
