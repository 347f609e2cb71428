use vstd::prelude::*;

verus! {

/// Whether a character is alphabetic, as `char::is_alphabetic` decides.
pub uninterp spec fn alpha(c: char) -> bool;

/// Whether a character is whitespace, as `char::is_whitespace` decides.
pub uninterp spec fn space(c: char) -> bool;

/// The lowercase form of a string, as `str::to_lowercase` computes it.
pub uninterp spec fn lower_of(s: Seq<char>) -> Seq<char>;

/// Relies on char::is_alphabetic.
#[verifier::external_body]
fn is_alpha(c: char) -> (r: bool)
    ensures
        r == alpha(c),
{
    c.is_alphabetic()
}

/// Relies on char::is_whitespace.
#[verifier::external_body]
fn is_space(c: char) -> (r: bool)
    ensures
        r == space(c),
{
    c.is_whitespace()
}

/// Relies on str::to_lowercase: the result depends on the characters alone,
/// and an empty string stays empty.
#[verifier::external_body]
fn lowercase(s: &str) -> (r: String)
    ensures
        r@ == lower_of(s@),
        s@.len() == 0 ==> r@.len() == 0,
{
    s.to_lowercase()
}

/// Relies on str::chars: the characters of the string, in order.
#[verifier::external_body]
fn chars_of(s: &str) -> (r: Vec<char>)
    ensures
        r@ == s@,
{
    s.chars().collect()
}

/// Relies on String's FromIterator<char>: the string of the given characters.
#[verifier::external_body]
fn string_of(v: &Vec<char>) -> (r: String)
    ensures
        r@ == v@,
{
    v.iter().collect()
}

pub open spec fn mask_of(s: Seq<char>, p: spec_fn(char) -> bool) -> Seq<bool> {
    Seq::new(s.len(), |i: int| p(s[i]))
}

/// Index of the first `true` at or after `i`, or the length when there is none.
pub open spec fn first_true(m: Seq<bool>, i: int) -> int
    decreases m.len() - i,
{
    if i < 0 || i >= m.len() {
        m.len() as int
    } else if m[i] {
        i
    } else {
        first_true(m, i + 1)
    }
}

/// One past the index of the last `true` before `j`, or 0 when there is none.
pub open spec fn last_true_end(m: Seq<bool>, j: int) -> int
    decreases j,
{
    if j <= 0 || j > m.len() {
        0
    } else if m[j - 1] {
        j
    } else {
        last_true_end(m, j - 1)
    }
}

/// `s` with the characters before the first marked one and after the last
/// marked one removed; empty when none is marked.
pub open spec fn trim_spec(s: Seq<char>, m: Seq<bool>) -> Seq<char> {
    let lo = first_true(m, 0);
    if lo >= m.len() {
        Seq::empty()
    } else {
        s.subrange(lo, last_true_end(m, m.len() as int))
    }
}

/// A normalized token: trimmed to its alphabetic ends, then lowercased.
pub open spec fn clean_spec(t: Seq<char>) -> Seq<char> {
    lower_of(trim_spec(t, mask_of(t, |c: char| alpha(c))))
}

/// The words found in the first `i` characters, and the word still open there.
pub open spec fn split_acc(s: Seq<char>, m: Seq<bool>, i: int) -> (Seq<Seq<char>>, Seq<char>)
    decreases i,
{
    if i <= 0 {
        (Seq::empty(), Seq::empty())
    } else {
        let (w, c) = split_acc(s, m, i - 1);
        if m[i - 1] {
            if c.len() > 0 {
                (w.push(c), Seq::empty())
            } else {
                (w, Seq::empty())
            }
        } else {
            (w, c.push(s[i - 1]))
        }
    }
}

/// The maximal runs of unmarked characters of `s`, in order.
pub open spec fn split_spec(s: Seq<char>, m: Seq<bool>) -> Seq<Seq<char>> {
    let (w, c) = split_acc(s, m, s.len() as int);
    if c.len() > 0 {
        w.push(c)
    } else {
        w
    }
}

/// The chunks of `s` between runs of whitespace.
pub open spec fn words_spec(s: Seq<char>) -> Seq<Seq<char>> {
    split_spec(s, mask_of(s, |c: char| space(c)))
}

/// The normalized forms of the words, those that are empty left out.
pub open spec fn clean_words(ws: Seq<Seq<char>>) -> Seq<Seq<char>>
    decreases ws.len(),
{
    if ws.len() == 0 {
        Seq::empty()
    } else {
        let r = clean_words(ws.drop_last());
        let c = clean_spec(ws.last());
        if c.len() > 0 {
            r.push(c)
        } else {
            r
        }
    }
}

/// The tokens of a text.
pub open spec fn tokens_spec(s: Seq<char>) -> Seq<Seq<char>> {
    clean_words(words_spec(s))
}

pub open spec fn strings_view(v: Seq<String>) -> Seq<Seq<char>> {
    v.map_values(|x: String| x@)
}

pub open spec fn char_vecs_view(v: Seq<Vec<char>>) -> Seq<Seq<char>> {
    v.map_values(|x: Vec<char>| x@)
}

/// Removes the characters before the first marked one and after the last
/// marked one; `marks[i]` says whether `chars[i]` may stand at an end.
pub fn trim_token(chars: &Vec<char>, marks: &Vec<bool>) -> (r: Vec<char>)
    requires
        chars@.len() == marks@.len(),
    ensures
        r@ == trim_spec(chars@, marks@),
{
    let n = chars.len();
    let mut lo: usize = 0;
    while lo < n && !marks[lo]
        invariant
            lo <= n,
            n == marks@.len(),
            first_true(marks@, lo as int) == first_true(marks@, 0),
        decreases n - lo,
    {
        lo = lo + 1;
    }
    if lo == n {
        return Vec::new();
    }
    let mut hi: usize = n;
    while hi > lo + 1 && !marks[hi - 1]
        invariant
            lo < hi <= n,
            n == marks@.len(),
            marks@[lo as int],
            last_true_end(marks@, hi as int) == last_true_end(marks@, n as int),
        decreases hi,
    {
        hi = hi - 1;
    }
    let mut r: Vec<char> = Vec::new();
    let mut i: usize = lo;
    while i < hi
        invariant
            lo <= i <= hi <= n,
            n == chars@.len(),
            r@ == chars@.subrange(lo as int, i as int),
        decreases hi - i,
    {
        r.push(chars[i]);
        i = i + 1;
    }
    r
}

/// Splits `chars` at the marked characters, dropping empty pieces.
pub fn split_on(chars: &Vec<char>, marks: &Vec<bool>) -> (r: Vec<Vec<char>>)
    requires
        chars@.len() == marks@.len(),
    ensures
        char_vecs_view(r@) == split_spec(chars@, marks@),
{
    let n = chars.len();
    let mut words: Vec<Vec<char>> = Vec::new();
    let mut cur: Vec<char> = Vec::new();
    let mut i: usize = 0;
    while i < n
        invariant
            i <= n,
            n == chars@.len(),
            n == marks@.len(),
            (char_vecs_view(words@), cur@) == split_acc(chars@, marks@, i as int),
        decreases n - i,
    {
        let ghost w0 = char_vecs_view(words@);
        if marks[i] {
            if cur.len() > 0 {
                let c = cur;
                words.push(c);
                cur = Vec::new();
                assert(char_vecs_view(words@) =~= w0.push(c@));
            }
        } else {
            cur.push(chars[i]);
        }
        i = i + 1;
    }
    if cur.len() > 0 {
        let ghost w0 = char_vecs_view(words@);
        let c = cur;
        words.push(c);
        assert(char_vecs_view(words@) =~= w0.push(c@));
    }
    words
}

/// The whitespace-separated chunks of `s`, in order.
pub fn split_space(s: &str) -> (r: Vec<String>)
    ensures
        strings_view(r@) == words_spec(s@),
{
    let chars = chars_of(s);
    let mut marks: Vec<bool> = Vec::new();
    let mut i: usize = 0;
    while i < chars.len()
        invariant
            i <= chars@.len(),
            marks@ =~= mask_of(chars@, |c: char| space(c)).subrange(0, i as int),
        decreases chars@.len() - i,
    {
        let b = is_space(chars[i]);
        marks.push(b);
        i = i + 1;
    }
    assert(marks@ =~= mask_of(chars@, |c: char| space(c)));
    let pieces = split_on(&chars, &marks);
    let mut r: Vec<String> = Vec::new();
    let mut k: usize = 0;
    while k < pieces.len()
        invariant
            k <= pieces@.len(),
            strings_view(r@) =~= char_vecs_view(pieces@).subrange(0, k as int),
        decreases pieces@.len() - k,
    {
        let w = string_of(&pieces[k]);
        let ghost before = strings_view(r@);
        r.push(w);
        assert(strings_view(r@) =~= before.push(pieces@[k as int]@));
        assert(char_vecs_view(pieces@).subrange(0, k + 1) =~= char_vecs_view(pieces@).subrange(0, k as int).push(pieces@[k as int]@));
        k = k + 1;
    }
    assert(char_vecs_view(pieces@).subrange(0, k as int) =~= char_vecs_view(pieces@));
    r
}

/// Normalizes one chunk: strips non-alphabetic characters from both ends,
/// then lowercases what is left.
pub fn clean_token(t: &str) -> (r: String)
    ensures
        r@ == clean_spec(t@),
{
    let chars = chars_of(t);
    let mut marks: Vec<bool> = Vec::new();
    let mut i: usize = 0;
    while i < chars.len()
        invariant
            i <= chars@.len(),
            marks@ =~= mask_of(chars@, |c: char| alpha(c)).subrange(0, i as int),
        decreases chars@.len() - i,
    {
        let b = is_alpha(chars[i]);
        marks.push(b);
        i = i + 1;
    }
    assert(marks@ =~= mask_of(chars@, |c: char| alpha(c)));
    let kept = trim_token(&chars, &marks);
    let s = string_of(&kept);
    lowercase(s.as_str())
}

/// Splits a text into normalized tokens, in order, duplicates kept.
pub fn tokenize(s: &str) -> (r: Vec<String>)
    ensures
        strings_view(r@) == tokens_spec(s@),
{
    let words = split_space(s);
    let ghost ws = strings_view(words@);
    let mut r: Vec<String> = Vec::new();
    let mut i: usize = 0;
    while i < words.len()
        invariant
            i <= words@.len(),
            ws == strings_view(words@),
            strings_view(r@) == clean_words(ws.subrange(0, i as int)),
        decreases words@.len() - i,
    {
        let ghost before = strings_view(r@);
        let c = clean_token(words[i].as_str());
        assert(ws.subrange(0, i + 1).drop_last() =~= ws.subrange(0, i as int));
        if !c.as_str().is_empty() {
            r.push(c);
            assert(strings_view(r@) =~= before.push(c@));
        }
        i = i + 1;
    }
    assert(ws.subrange(0, i as int) =~= ws);
    r
}

} // verus!
