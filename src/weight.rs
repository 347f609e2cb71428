use vstd::prelude::*;
use crate::doc::strings_view;

verus! {

/// A non-negative rational weight `num / den`.
#[derive(Clone, Copy, Debug, PartialEq, Eq, Structural)]
pub struct Ratio {
    pub num: u64,
    pub den: u64,
}

/// Why a weighting scheme could not weigh a document.
#[derive(Clone, Copy, Debug, PartialEq, Eq, Structural)]
pub enum WeightError {
    /// The document has no terms, so it has no largest count.
    EmptyDocument,
}

/// How many times `t` occurs in `d`.
pub open spec fn count_of(d: Seq<Seq<char>>, t: Seq<char>) -> nat
    decreases d.len(),
{
    if d.len() == 0 {
        0
    } else {
        count_of(d.drop_last(), t) + if d.last() == t { 1nat } else { 0nat }
    }
}

/// `m` is the largest number of occurrences of any term of `d`.
pub open spec fn is_max_count(d: Seq<Seq<char>>, m: nat) -> bool {
    &&& forall|t: Seq<char>| #[trigger] count_of(d, t) <= m
    &&& exists|t: Seq<char>| #[trigger] count_of(d, t) == m
}

/// The table holds each term of `d` exactly once, and nothing else.
pub open spec fn same_terms<T>(r: Seq<(String, T)>, d: Seq<Seq<char>>) -> bool {
    &&& forall|i: int, j: int| 0 <= i < j < r.len() ==> r[i].0@ != r[j].0@
    &&& forall|k: int| 0 <= k < r.len() ==> count_of(d, #[trigger] r[k].0@) > 0
    &&& forall|t: Seq<char>| count_of(d, t) > 0 ==> exists|k: int| 0 <= k < r.len() && #[trigger] r[k].0@ == t
}

pub open spec fn sum_u64(s: Seq<u64>) -> int
    decreases s.len(),
{
    if s.len() == 0 {
        0
    } else {
        sum_u64(s.drop_last()) + s.last()
    }
}

/// The sum of the numerators of a weight table.
pub open spec fn sum_nums(r: Seq<(String, Ratio)>) -> int
    decreases r.len(),
{
    if r.len() == 0 {
        0
    } else {
        sum_nums(r.drop_last()) + r.last().1.num
    }
}

/// Every term of `d` is among `keys`.
#[verifier::opaque]
pub open spec fn covers_doc(keys: Seq<String>, d: Seq<Seq<char>>) -> bool {
    forall|t: Seq<char>| count_of(d, t) > 0 ==> exists|k: int| 0 <= k < keys.len() && #[trigger] keys[k]@ == t
}

proof fn lemma_count_push(d: Seq<Seq<char>>, x: Seq<char>, t: Seq<char>)
    ensures
        count_of(d.push(x), t) == count_of(d, t) + if x == t { 1nat } else { 0nat },
{
    assert(d.push(x).drop_last() =~= d);
}

proof fn lemma_count_pos(d: Seq<Seq<char>>, t: Seq<char>)
    requires
        count_of(d, t) > 0,
    ensures
        exists|j: int| 0 <= j < d.len() && d[j] == t,
    decreases d.len(),
{
    if d.last() == t {
        assert(d[d.len() - 1] == t);
    } else {
        lemma_count_pos(d.drop_last(), t);
        let j = choose|j: int| 0 <= j < d.len() - 1 && d.drop_last()[j] == t;
        assert(d[j] == t);
    }
}

proof fn lemma_count_zero(d: Seq<Seq<char>>, t: Seq<char>)
    requires
        forall|j: int| 0 <= j < d.len() ==> d[j] != t,
    ensures
        count_of(d, t) == 0,
    decreases d.len(),
{
    if d.len() > 0 {
        lemma_count_zero(d.drop_last(), t);
    }
}

proof fn lemma_sum_bump(s: Seq<u64>, k: int)
    requires
        0 <= k < s.len(),
        s[k] < u64::MAX,
    ensures
        sum_u64(s.update(k, (s[k] + 1) as u64)) == sum_u64(s) + 1,
    decreases s.len(),
{
    let s2 = s.update(k, (s[k] + 1) as u64);
    if k == s.len() - 1 {
        assert(s2.drop_last() =~= s.drop_last());
    } else {
        lemma_sum_bump(s.drop_last(), k);
        assert(s2.drop_last() =~= s.drop_last().update(k, (s[k] + 1) as u64));
    }
}

proof fn lemma_sum_nums(r: Seq<(String, Ratio)>, c: Seq<u64>)
    requires
        r.len() == c.len(),
        forall|k: int| 0 <= k < r.len() ==> r[k].1.num == c[k],
    ensures
        sum_nums(r) == sum_u64(c),
    decreases r.len(),
{
    if r.len() > 0 {
        lemma_sum_nums(r.drop_last(), c.drop_last());
    }
}

/// The distinct terms of `doc` in order of first occurrence, each with its
/// number of occurrences.
fn count_terms(doc: &Vec<String>) -> (r: (Vec<String>, Vec<u64>))
    ensures
        r.0@.len() == r.1@.len(),
        forall|i: int, j: int| 0 <= i < j < r.0@.len() ==> r.0@[i]@ != r.0@[j]@,
        forall|k: int| 0 <= k < r.0@.len() ==> r.1@[k] == count_of(strings_view(doc@), #[trigger] r.0@[k]@),
        forall|k: int| 0 <= k < r.0@.len() ==> 0 < #[trigger] r.1@[k] <= doc@.len(),
        covers_doc(r.0@, strings_view(doc@)),
        sum_u64(r.1@) == doc@.len(),
{
    let ghost d = strings_view(doc@);
    proof {
        reveal(covers_doc);
    }
    let mut keys: Vec<String> = Vec::new();
    let mut counts: Vec<u64> = Vec::new();
    let n = doc.len();
    let mut i: usize = 0;
    while i < n
        invariant
            i <= n,
            n == doc@.len(),
            d == strings_view(doc@),
            keys@.len() == counts@.len(),
            forall|a: int, b: int| 0 <= a < b < keys@.len() ==> keys@[a]@ != keys@[b]@,
            forall|k: int| 0 <= k < keys@.len() ==> counts@[k] == count_of(d.subrange(0, i as int), #[trigger] keys@[k]@),
            forall|k: int| 0 <= k < keys@.len() ==> 0 < #[trigger] counts@[k] <= i,
            covers_doc(keys@, d.subrange(0, i as int)),
            sum_u64(counts@) == i,
        decreases n - i,
    {
        let ghost pre = d.subrange(0, i as int);
        proof {
            reveal(covers_doc);
        }
        let ghost x = d[i as int];
        assert(d.subrange(0, i + 1) =~= pre.push(x));
        let mut k: usize = 0;
        while k < keys.len() && keys[k] != doc[i]
            invariant
                k <= keys@.len(),
                i < n,
                n == doc@.len(),
                x == doc@[i as int]@,
                forall|a: int| 0 <= a < k ==> keys@[a]@ != x,
            decreases keys@.len() - k,
        {
            k = k + 1;
        }
        let ghost oldc = counts@;
        let ghost oldk = keys@;
        if k < keys.len() {
            let c = counts[k];
            counts.set(k, c + 1);
            proof {
                lemma_sum_bump(oldc, k as int);
                assert(counts@ =~= oldc.update(k as int, (oldc[k as int] + 1) as u64));
                assert forall|j: int| 0 <= j < keys@.len() implies counts@[j] == count_of(
                    pre.push(x),
                    #[trigger] keys@[j]@,
                ) by {
                    lemma_count_push(pre, x, keys@[j]@);
                }
                assert forall|t: Seq<char>| count_of(pre.push(x), t) > 0 implies exists|j: int|
                    0 <= j < keys@.len() && #[trigger] keys@[j]@ == t by {
                    lemma_count_push(pre, x, t);
                    if t == x {
                        assert(keys@[k as int]@ == t);
                    }
                }
            }
        } else {
            keys.push(doc[i].clone());
            counts.push(1);
            proof {
                assert(counts@.drop_last() =~= oldc);
                assert forall|j: int| 0 <= j < keys@.len() implies counts@[j] == count_of(
                    pre.push(x),
                    #[trigger] keys@[j]@,
                ) by {
                    lemma_count_push(pre, x, keys@[j]@);
                    if j == keys@.len() - 1 {
                        assert forall|a: int| 0 <= a < pre.len() implies pre[a] != x by {
                            if pre[a] == x {
                                lemma_count_at(pre, a);
                                let kk = choose|kk: int| 0 <= kk < oldk.len() && #[trigger] oldk[kk]@ == x;
                            }
                        }
                        lemma_count_zero(pre, x);
                    }
                }
                assert forall|t: Seq<char>| count_of(pre.push(x), t) > 0 implies exists|j: int|
                    0 <= j < keys@.len() && #[trigger] keys@[j]@ == t by {
                    lemma_count_push(pre, x, t);
                    if t == x {
                        assert(keys@[keys@.len() - 1]@ == t);
                    } else {
                        let kk = choose|kk: int| 0 <= kk < oldk.len() && #[trigger] oldk[kk]@ == t;
                        assert(keys@[kk]@ == t);
                    }
                }
            }
        }
        i = i + 1;
    }
    assert(d.subrange(0, n as int) =~= d);
    (keys, counts)
}

proof fn lemma_count_at(d: Seq<Seq<char>>, a: int)
    requires
        0 <= a < d.len(),
    ensures
        count_of(d, d[a]) > 0,
    decreases d.len(),
{
    if a < d.len() - 1 {
        lemma_count_at(d.drop_last(), a);
    }
}

proof fn lemma_zip_same_terms<T>(r: Seq<(String, T)>, keys: Seq<String>, counts: Seq<u64>, d: Seq<Seq<char>>)
    requires
        r.len() == keys.len(),
        keys.len() == counts.len(),
        forall|k: int| 0 <= k < r.len() ==> #[trigger] r[k].0@ == keys[k]@,
        forall|i: int, j: int| 0 <= i < j < keys.len() ==> keys[i]@ != keys[j]@,
        forall|k: int| 0 <= k < keys.len() ==> counts[k] == count_of(d, #[trigger] keys[k]@),
        forall|k: int| 0 <= k < keys.len() ==> 0 < #[trigger] counts[k],
        covers_doc(keys, d),
    ensures
        same_terms(r, d),
{
    reveal(covers_doc);
    assert forall|i: int, j: int| 0 <= i < j < r.len() implies r[i].0@ != r[j].0@ by {
        assert(r[i].0@ == keys[i]@ && r[j].0@ == keys[j]@);
    }
    assert forall|k: int| 0 <= k < r.len() implies count_of(d, #[trigger] r[k].0@) > 0 by {
        assert(r[k].0@ == keys[k]@);
        assert(counts[k] > 0);
    }
    assert forall|t: Seq<char>| count_of(d, t) > 0 implies exists|k: int| 0 <= k < r.len() && #[trigger] r[k].0@ == t by {
        let k = choose|k: int| 0 <= k < keys.len() && #[trigger] keys[k]@ == t;
        assert(r[k].0@ == keys[k]@);
    }
}

/// Pairs each term with the weight at the same position.
fn zip_weights<T: Copy>(keys: &Vec<String>, w: &Vec<T>) -> (r: Vec<(String, T)>)
    requires
        keys@.len() == w@.len(),
    ensures
        r@.len() == keys@.len(),
        forall|k: int| 0 <= k < r@.len() ==> (#[trigger] r@[k]).0@ == keys@[k]@,
        forall|k: int| 0 <= k < r@.len() ==> (#[trigger] r@[k]).1 == w@[k],
{
    let mut r: Vec<(String, T)> = Vec::new();
    let mut k: usize = 0;
    while k < keys.len()
        invariant
            k <= keys@.len(),
            keys@.len() == w@.len(),
            r@.len() == k,
            forall|j: int| 0 <= j < k ==> (#[trigger] r@[j]).0@ == keys@[j]@ && r@[j].1 == w@[j],
        decreases keys@.len() - k,
    {
        r.push((keys[k].clone(), w[k]));
        k = k + 1;
    }
    r
}

/// Raw weighting: each term weighs its number of occurrences.
pub fn term_frequency(doc: Vec<String>) -> (r: Vec<(String, Ratio)>)
    ensures
        same_terms(r@, strings_view(doc@)),
        forall|k: int| 0 <= k < r@.len() ==> #[trigger] r@[k].1 == (Ratio {
            num: count_of(strings_view(doc@), r@[k].0@) as u64,
            den: 1,
        }),
{
    let (keys, counts) = count_terms(&doc);
    let mut w: Vec<Ratio> = Vec::new();
    let mut k: usize = 0;
    while k < counts.len()
        invariant
            k <= counts@.len(),
            w@.len() == k,
            forall|j: int| 0 <= j < k ==> #[trigger] w@[j] == (Ratio { num: counts@[j], den: 1 }),
        decreases counts@.len() - k,
    {
        w.push(Ratio { num: counts[k], den: 1 });
        k = k + 1;
    }
    let r = zip_weights(&keys, &w);
    proof {
        lemma_zip_same_terms(r@, keys@, counts@, strings_view(doc@));
    }
    r
}

/// Boolean weighting: each term present weighs 1.
pub fn term_frequency_bool(doc: Vec<String>) -> (r: Vec<(String, Ratio)>)
    ensures
        same_terms(r@, strings_view(doc@)),
        forall|k: int| 0 <= k < r@.len() ==> #[trigger] r@[k].1 == (Ratio { num: 1, den: 1 }),
{
    let (keys, counts) = count_terms(&doc);
    let mut w: Vec<Ratio> = Vec::new();
    let mut k: usize = 0;
    while k < counts.len()
        invariant
            k <= counts@.len(),
            w@.len() == k,
            forall|j: int| 0 <= j < k ==> #[trigger] w@[j] == (Ratio { num: 1, den: 1 }),
        decreases counts@.len() - k,
    {
        w.push(Ratio { num: 1, den: 1 });
        k = k + 1;
    }
    let r = zip_weights(&keys, &w);
    proof {
        lemma_zip_same_terms(r@, keys@, counts@, strings_view(doc@));
    }
    r
}

/// Length-normalized weighting: each term weighs its number of occurrences
/// over the number of tokens of the document, so the weights sum to one.
pub fn term_frequency_len(doc: Vec<String>) -> (r: Vec<(String, Ratio)>)
    ensures
        same_terms(r@, strings_view(doc@)),
        forall|k: int| 0 <= k < r@.len() ==> #[trigger] r@[k].1 == (Ratio {
            num: count_of(strings_view(doc@), r@[k].0@) as u64,
            den: doc@.len() as u64,
        }),
        sum_nums(r@) == doc@.len(),
{
    let total = doc.len() as u64;
    let (keys, counts) = count_terms(&doc);
    let mut w: Vec<Ratio> = Vec::new();
    let mut k: usize = 0;
    while k < counts.len()
        invariant
            k <= counts@.len(),
            w@.len() == k,
            forall|j: int| 0 <= j < k ==> #[trigger] w@[j] == (Ratio { num: counts@[j], den: total }),
        decreases counts@.len() - k,
    {
        w.push(Ratio { num: counts[k], den: total });
        k = k + 1;
    }
    let r = zip_weights(&keys, &w);
    proof {
        lemma_zip_same_terms(r@, keys@, counts@, strings_view(doc@));
        assert forall|j: int| 0 <= j < r@.len() implies r@[j].1.num == counts@[j] by {
            assert(r@[j].1 == w@[j]);
        }
        lemma_sum_nums(r@, counts@);
    }
    r
}

/// Log-dampened weighting: each term weighs `log10(1 + count)`; the table
/// holds the argument `1 + count` of that logarithm.
pub fn term_frequency_log(doc: Vec<String>) -> (r: Vec<(String, u64)>)
    requires
        doc@.len() < u64::MAX,
    ensures
        same_terms(r@, strings_view(doc@)),
        forall|k: int| 0 <= k < r@.len() ==> #[trigger] r@[k].1 == count_of(strings_view(doc@), r@[k].0@) + 1,
{
    let (keys, counts) = count_terms(&doc);
    let mut w: Vec<u64> = Vec::new();
    let mut k: usize = 0;
    while k < counts.len()
        invariant
            k <= counts@.len(),
            w@.len() == k,
            doc@.len() < u64::MAX,
            forall|j: int| 0 <= j < counts@.len() ==> #[trigger] counts@[j] <= doc@.len(),
            forall|j: int| 0 <= j < k ==> #[trigger] w@[j] == counts@[j] + 1,
        decreases counts@.len() - k,
    {
        w.push(counts[k] + 1);
        k = k + 1;
    }
    let r = zip_weights(&keys, &w);
    proof {
        lemma_zip_same_terms(r@, keys@, counts@, strings_view(doc@));
    }
    r
}

/// Augmented weighting: each term weighs `count / (2 * max) + 1/2`, that is
/// `(count + max) / (2 * max)`, where `max` is the largest count of the
/// document. An empty document has no largest count and is refused.
pub fn term_frequency_aug(doc: Vec<String>) -> (r: Result<Vec<(String, Ratio)>, WeightError>)
    requires
        doc@.len() < 0x8000_0000_0000_0000,
    ensures
        doc@.len() == 0 <==> r == Err::<Vec<(String, Ratio)>, WeightError>(WeightError::EmptyDocument),
        r is Ok ==> same_terms(r->Ok_0@, strings_view(doc@)),
        r is Ok ==> exists|m: nat| is_max_count(strings_view(doc@), m) && forall|k: int|
            0 <= k < r->Ok_0@.len() ==> #[trigger] r->Ok_0@[k].1 == (Ratio {
                num: (count_of(strings_view(doc@), r->Ok_0@[k].0@) + m) as u64,
                den: (2 * m) as u64,
            }),
        r is Ok ==> forall|k: int| 0 <= k < r->Ok_0@.len() ==> {
            let w = #[trigger] r->Ok_0@[k].1;
            0 < w.den <= 2 * w.num && w.num <= w.den
        },
{
    if doc.len() == 0 {
        return Err(WeightError::EmptyDocument);
    }
    let ghost d = strings_view(doc@);
    let (keys, counts) = count_terms(&doc);
    proof {
        lemma_count_at(d, 0);
    }
    let mut max: u64 = 0;
    let mut k: usize = 0;
    while k < counts.len()
        invariant
            k <= counts@.len(),
            forall|j: int| 0 <= j < k ==> #[trigger] counts@[j] <= max,
            k > 0 ==> exists|j: int| 0 <= j < k && #[trigger] counts@[j] == max,
            k == 0 ==> max == 0,
        decreases counts@.len() - k,
    {
        if counts[k] > max {
            max = counts[k];
        }
        k = k + 1;
    }
    proof {
        reveal(covers_doc);
        assert(is_max_count(d, max as nat)) by {
            assert forall|t: Seq<char>| #[trigger] count_of(d, t) <= max by {
                if count_of(d, t) > 0 {
                    let kk = choose|kk: int| 0 <= kk < keys@.len() && #[trigger] keys@[kk]@ == t;
                    assert(counts@[kk] <= max);
                }
            }
            let kk = choose|kk: int| 0 <= kk < counts@.len() && #[trigger] counts@[kk] == max;
            assert(count_of(d, keys@[kk]@) == max);
        }
    }
    let mut w: Vec<Ratio> = Vec::new();
    let mut k: usize = 0;
    while k < counts.len()
        invariant
            k <= counts@.len(),
            w@.len() == k,
            0 < max < 0x8000_0000_0000_0000,
            forall|j: int| 0 <= j < counts@.len() ==> 0 < #[trigger] counts@[j] <= max,
            forall|j: int| 0 <= j < k ==> #[trigger] w@[j] == (Ratio { num: (counts@[j] + max) as u64, den: (2 * max) as u64 }),
        decreases counts@.len() - k,
    {
        w.push(Ratio { num: counts[k] + max, den: 2 * max });
        k = k + 1;
    }
    let r = zip_weights(&keys, &w);
    proof {
        lemma_zip_same_terms(r@, keys@, counts@, d);
        assert forall|j: int| 0 <= j < r@.len() implies {
            let x = #[trigger] r@[j].1;
            0 < x.den <= 2 * x.num && x.num <= x.den
        } by {
            assert(r@[j].1 == w@[j]);
            assert(0 < counts@[j] <= max);
        }
    }
    Ok(r)
}

} // verus!
