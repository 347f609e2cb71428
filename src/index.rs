use vstd::prelude::*;
use crate::weight::Ratio;

verus! {

/// A term's inverse document frequency `log10(n / df)`, recomputed when the
/// operation counter stood at `stamp`.
#[derive(Clone, Copy, Debug, PartialEq, Eq, Structural)]
pub struct IdfEntry {
    pub stamp: u64,
    pub n: u64,
    pub df: u64,
}

/// One term's share of a document's score: `log10(n / df) * weight`.
#[derive(Clone, Copy, Debug, PartialEq, Eq, Structural)]
pub struct Part {
    pub n: u64,
    pub df: u64,
    pub weight: Ratio,
}

/// A document that matched a query, with the shares of its score, one for
/// each query term that it holds, in query order.
#[derive(Debug)]
pub struct Hit {
    pub doc: u64,
    pub parts: Vec<Part>,
}

/// What the index keeps for one term.
struct TermStats {
    term: String,
    postings: Vec<u64>,
    idf: IdfEntry,
    cache: Vec<(u64, Ratio)>,
}

/// An incremental inverted index over weighted documents. Document `d`
/// (counting from 1) is `docs[d - 1]`.
pub struct Index {
    last_id: u64,
    last_op: u64,
    docs: Vec<Vec<(String, Ratio)>>,
    terms: Vec<TermStats>,
    snapshots: Vec<Vec<(String, Part)>>,
}

pub open spec fn has_key(ws: Seq<(String, Ratio)>, t: Seq<char>) -> bool {
    exists|i: int| 0 <= i < ws.len() && #[trigger] ws[i].0@ == t
}

pub open spec fn has_weight(ws: Seq<(String, Ratio)>, t: Seq<char>, w: Ratio) -> bool {
    exists|i: int| 0 <= i < ws.len() && #[trigger] ws[i].0@ == t && ws[i].1 == w
}

/// A term-weight map: each term once, each weight with a positive denominator.
pub open spec fn is_weight_map(ws: Seq<(String, Ratio)>) -> bool {
    &&& forall|i: int, j: int| 0 <= i < j < ws.len() ==> ws[i].0@ != ws[j].0@
    &&& forall|i: int| 0 <= i < ws.len() ==> (#[trigger] ws[i]).1.den > 0
}

/// `a >= b` as rationals.
pub open spec fn ratio_ge(a: Ratio, b: Ratio) -> bool {
    a.num * b.den >= b.num * a.den
}

pub open spec fn docs_view(docs: Seq<Vec<(String, Ratio)>>) -> Seq<Seq<(String, Ratio)>> {
    docs.map_values(|w: Vec<(String, Ratio)>| w@)
}

/// `p` lists, in increasing order, documents of `docs` that hold `t`.
pub open spec fn sound_postings(p: Seq<u64>, docs: Seq<Seq<(String, Ratio)>>, t: Seq<char>) -> bool {
    &&& forall|i: int, j: int| 0 <= i < j < p.len() ==> p[i] < p[j]
    &&& forall|i: int| 0 <= i < p.len() ==> 1 <= #[trigger] p[i] <= docs.len() && has_key(docs[p[i] - 1], t)
}

/// Every document of `docs` that holds `t` is in `p`.
pub open spec fn covers_docs(p: Seq<u64>, docs: Seq<Seq<(String, Ratio)>>, t: Seq<char>) -> bool {
    forall|d: int| 1 <= d <= docs.len() && #[trigger] has_key(docs[d - 1], t) ==> p.contains(d as u64)
}

proof fn lemma_covers_extend(p: Seq<u64>, docs: Seq<Seq<(String, Ratio)>>, t: Seq<char>, w: Seq<(String, Ratio)>)
    requires
        covers_docs(p, docs, t),
        !has_key(w, t),
    ensures
        covers_docs(p, docs.push(w), t),
{
    let nd = docs.push(w);
    assert forall|d: int| 1 <= d <= nd.len() && #[trigger] has_key(nd[d - 1], t) implies p.contains(d as u64) by {
        if d <= docs.len() {
            assert(nd[d - 1] == docs[d - 1]);
        }
    }
}

proof fn lemma_covers_push(p: Seq<u64>, docs: Seq<Seq<(String, Ratio)>>, t: Seq<char>, w: Seq<(String, Ratio)>)
    requires
        covers_docs(p, docs, t),
        docs.len() < u64::MAX,
    ensures
        covers_docs(p.push((docs.len() + 1) as u64), docs.push(w), t),
{
    let nd = docs.push(w);
    let np = p.push((docs.len() + 1) as u64);
    assert forall|d: int| 1 <= d <= nd.len() && #[trigger] has_key(nd[d - 1], t) implies np.contains(d as u64) by {
        if d <= docs.len() {
            assert(nd[d - 1] == docs[d - 1]);
            let q = choose|q: int| 0 <= q < p.len() && p[q] == d as u64;
            assert(np[q] == d as u64);
        } else {
            assert(np[p.len() as int] == d as u64);
        }
    }
}

proof fn lemma_ge_through(x: Ratio, w: Ratio, y: Ratio)
    requires
        x.den > 0,
        w.den > 0,
        y.den > 0,
        !ratio_ge(x, w),
        ratio_ge(x, y),
    ensures
        ratio_ge(w, y),
{
    let (xn, xd, wn, wd, yn, yd) = (x.num as int, x.den as int, w.num as int, w.den as int, y.num as int, y.den as int);
    assert(xn * wd * yd < wn * xd * yd) by (nonlinear_arith)
        requires xn * wd < wn * xd, yd > 0;
    assert(xn * yd * wd >= yn * xd * wd) by (nonlinear_arith)
        requires xn * yd >= yn * xd, wd > 0;
    assert(wn * yd * xd > yn * wd * xd) by (nonlinear_arith)
        requires xn * wd * yd < wn * xd * yd, xn * yd * wd >= yn * xd * wd;
    assert(wn * yd >= yn * wd) by (nonlinear_arith)
        requires wn * yd * xd > yn * wd * xd, xd > 0;
}

fn ge(a: Ratio, b: Ratio) -> (r: bool)
    ensures
        r == ratio_ge(a, b),
{
    proof {
        let (an, bd, bn, ad) = (a.num as int, b.den as int, b.num as int, a.den as int);
        assert(an * bd <= 0xffff_ffff_ffff_ffff * 0xffff_ffff_ffff_ffff) by (nonlinear_arith)
            requires 0 <= an <= 0xffff_ffff_ffff_ffff, 0 <= bd <= 0xffff_ffff_ffff_ffff;
        assert(bn * ad <= 0xffff_ffff_ffff_ffff * 0xffff_ffff_ffff_ffff) by (nonlinear_arith)
            requires 0 <= bn <= 0xffff_ffff_ffff_ffff, 0 <= ad <= 0xffff_ffff_ffff_ffff;
    }
    let l = (a.num as u128) * (b.den as u128);
    let rr = (b.num as u128) * (a.den as u128);
    l >= rr
}

/// The weight of `t` in `ws`, if `ws` holds it.
fn weight_in(ws: &Vec<(String, Ratio)>, t: &String) -> (r: Option<Ratio>)
    ensures
        r is Some ==> has_weight(ws@, t@, r->Some_0),
        r is None ==> !has_key(ws@, t@),
{
    let mut i: usize = 0;
    while i < ws.len()
        invariant
            i <= ws@.len(),
            forall|j: int| 0 <= j < i ==> ws@[j].0@ != t@,
        decreases ws@.len() - i,
    {
        if ws[i].0 == *t {
            return Some(ws[i].1);
        }
        i = i + 1;
    }
    None
}

pub open spec fn ids_distinct(c: Seq<(u64, Ratio)>) -> bool {
    forall|a: int, b: int| 0 <= a < b < c.len() ==> c[a].0 != c[b].0
}

pub open spec fn ids_from(c: Seq<(u64, Ratio)>, p: Seq<u64>, i: int) -> bool {
    forall|k: int| #![trigger c[k]] 0 <= k < c.len() ==> exists|q: int| #![trigger p[q]] 0 <= q < i && p[q] == c[k].0
}

pub open spec fn weights_right(c: Seq<(u64, Ratio)>, docs: Seq<Seq<(String, Ratio)>>, t: Seq<char>) -> bool {
    &&& forall|k: int| 0 <= k < c.len() ==> has_weight(docs[(#[trigger] c[k]).0 - 1], t, c[k].1)
    &&& forall|k: int| 0 <= k < c.len() ==> (#[trigger] c[k]).1.den > 0
}

pub open spec fn covers_prefix(c: Seq<(u64, Ratio)>, p: Seq<u64>, i: int) -> bool {
    forall|q: int| #![trigger p[q]] 0 <= q < i ==> exists|k: int| #![trigger c[k]] 0 <= k < c.len() && c[k].0 == p[q]
}

pub open spec fn descending(c: Seq<(u64, Ratio)>) -> bool {
    forall|a: int, b: int| 0 <= a < b < c.len() ==> ratio_ge(c[a].1, c[b].1)
}

/// `c` is the cache built from the first `i` postings of `p`.
#[verifier::opaque]
pub open spec fn partial_cache(c: Seq<(u64, Ratio)>, p: Seq<u64>, i: int, docs: Seq<Seq<(String, Ratio)>>, t: Seq<char>) -> bool {
    &&& c.len() == i
    &&& ids_distinct(c)
    &&& ids_from(c, p, i)
    &&& weights_right(c, docs, t)
    &&& covers_prefix(c, p, i)
    &&& descending(c)
}

proof fn lemma_step(old_c: Seq<(u64, Ratio)>, j: int, w: Ratio, p: Seq<u64>, i: int, docs: Seq<Seq<(String, Ratio)>>, t: Seq<char>)
    requires
        0 <= i < p.len(),
        sound_postings(p, docs, t),
        partial_cache(old_c, p, i, docs, t),
        has_weight(docs[p[i] - 1], t, w),
        w.den > 0,
        0 <= j <= old_c.len(),
        forall|a: int| 0 <= a < j ==> ratio_ge(#[trigger] old_c[a].1, w),
        j < old_c.len() ==> !ratio_ge(old_c[j].1, w),
    ensures
        partial_cache(old_c.insert(j, (p[i], w)), p, i + 1, docs, t),
{
    reveal(partial_cache);
    old_c.insert_ensures(j, (p[i], w));
    lemma_step_ids(old_c, j, w, p, i);
    lemma_step_weights(old_c, j, w, p, i, docs, t);
    lemma_step_covers(old_c, j, w, p, i);
    lemma_step_sorted(old_c, j, (p[i], w));
}

proof fn lemma_cache_extend(c: Seq<(u64, Ratio)>, p: Seq<u64>, docs: Seq<Seq<(String, Ratio)>>, t: Seq<char>, w: Seq<(String, Ratio)>)
    requires
        partial_cache(c, p, p.len() as int, docs, t),
        sound_postings(p, docs, t),
    ensures
        partial_cache(c, p, p.len() as int, docs.push(w), t),
{
    reveal(partial_cache);
    let nd = docs.push(w);
    assert forall|k: int| 0 <= k < c.len() implies has_weight(nd[(#[trigger] c[k]).0 - 1], t, c[k].1) by {
        let q = choose|q: int| #![trigger p[q]] 0 <= q < p.len() && p[q] == c[k].0;
        assert(1 <= p[q] <= docs.len());
        assert(nd[c[k].0 - 1] == docs[c[k].0 - 1]);
    }
}

proof fn lemma_step_ids(old_c: Seq<(u64, Ratio)>, j: int, w: Ratio, p: Seq<u64>, i: int)
    requires
        0 <= i < p.len(),
        forall|a: int, b: int| 0 <= a < b < p.len() ==> p[a] < p[b],
        ids_distinct(old_c),
        ids_from(old_c, p, i),
        0 <= j <= old_c.len(),
    ensures
        ids_distinct(old_c.insert(j, (p[i], w))),
        ids_from(old_c.insert(j, (p[i], w)), p, i + 1),
{
    let d = p[i];
    let c = old_c.insert(j, (d, w));
    old_c.insert_ensures(j, (d, w));
    assert forall|k: int| 0 <= k < old_c.len() implies old_c[k].0 != d by {
        let q = choose|q: int| #![trigger p[q]] 0 <= q < i && p[q] == old_c[k].0;
    }
    assert forall|a: int, b: int| 0 <= a < b < c.len() implies c[a].0 != c[b].0 by {
        if b < j {
        } else if b == j {
            assert(c[a] == old_c[a]);
        } else if a < j {
            assert(c[b] == old_c[b - 1]);
        } else if a == j {
            assert(c[b] == old_c[b - 1]);
        } else {
            assert(c[b] == old_c[b - 1]);
            assert(c[a] == old_c[a - 1]);
        }
    }
    assert forall|k: int| #![trigger c[k]] 0 <= k < c.len() implies exists|q: int| #![trigger p[q]] 0 <= q < i + 1 && p[q] == c[k].0 by {
        if k < j {
            assert(c[k] == old_c[k]);
            let q = choose|q: int| #![trigger p[q]] 0 <= q < i && p[q] == old_c[k].0;
        } else if k == j {
            assert(p[i] == c[k].0);
        } else {
            assert(c[k] == old_c[k - 1]);
            let q = choose|q: int| #![trigger p[q]] 0 <= q < i && p[q] == old_c[k - 1].0;
        }
    }
}

proof fn lemma_step_weights(old_c: Seq<(u64, Ratio)>, j: int, w: Ratio, p: Seq<u64>, i: int, docs: Seq<Seq<(String, Ratio)>>, t: Seq<char>)
    requires
        0 <= i < p.len(),
        weights_right(old_c, docs, t),
        has_weight(docs[p[i] - 1], t, w),
        w.den > 0,
        0 <= j <= old_c.len(),
    ensures
        weights_right(old_c.insert(j, (p[i], w)), docs, t),
{
    let c = old_c.insert(j, (p[i], w));
    old_c.insert_ensures(j, (p[i], w));
    assert forall|k: int| 0 <= k < c.len() implies has_weight(docs[(#[trigger] c[k]).0 - 1], t, c[k].1) && c[k].1.den > 0 by {
        if k < j {
            assert(c[k] == old_c[k]);
        } else if k > j {
            assert(c[k] == old_c[k - 1]);
        }
    }
}

proof fn lemma_step_covers(old_c: Seq<(u64, Ratio)>, j: int, w: Ratio, p: Seq<u64>, i: int)
    requires
        0 <= i < p.len(),
        covers_prefix(old_c, p, i),
        0 <= j <= old_c.len(),
    ensures
        covers_prefix(old_c.insert(j, (p[i], w)), p, i + 1),
{
    let c = old_c.insert(j, (p[i], w));
    old_c.insert_ensures(j, (p[i], w));
    assert forall|q: int| #![trigger p[q]] 0 <= q < i + 1 implies exists|k: int| #![trigger c[k]] 0 <= k < c.len() && c[k].0 == p[q] by {
        if q == i {
            assert(c[j].0 == p[q]);
        } else {
            let k = choose|k: int| #![trigger old_c[k]] 0 <= k < old_c.len() && old_c[k].0 == p[q];
            if k < j {
                assert(c[k] == old_c[k]);
            } else {
                assert(c[k + 1] == old_c[k]);
            }
        }
    }
}

proof fn lemma_sorted_pair(old_c: Seq<(u64, Ratio)>, j: int, x: (u64, Ratio), a: int, b: int)
    requires
        descending(old_c),
        forall|k: int| 0 <= k < old_c.len() ==> (#[trigger] old_c[k]).1.den > 0,
        x.1.den > 0,
        0 <= j <= old_c.len(),
        forall|i: int| 0 <= i < j ==> ratio_ge(#[trigger] old_c[i].1, x.1),
        j < old_c.len() ==> !ratio_ge(old_c[j].1, x.1),
        0 <= a < b <= old_c.len(),
    ensures
        ratio_ge(old_c.insert(j, x)[a].1, old_c.insert(j, x)[b].1),
{
    let c = old_c.insert(j, x);
    old_c.insert_ensures(j, x);
    if b < j {
        assert(c[a] == old_c[a] && c[b] == old_c[b]);
    } else if b == j {
        assert(c[a] == old_c[a]);
    } else if a < j {
        assert(c[b] == old_c[b - 1]);
        assert(c[a] == old_c[a]);
    } else if a == j {
        assert(c[b] == old_c[b - 1]);
        if b - 1 > j {
            assert(ratio_ge(old_c[j].1, old_c[b - 1].1));
        }
        lemma_ge_through(old_c[j].1, x.1, old_c[b - 1].1);
    } else {
        assert(c[b] == old_c[b - 1]);
        assert(c[a] == old_c[a - 1]);
    }
}

proof fn lemma_step_sorted(old_c: Seq<(u64, Ratio)>, j: int, x: (u64, Ratio))
    requires
        descending(old_c),
        forall|k: int| 0 <= k < old_c.len() ==> (#[trigger] old_c[k]).1.den > 0,
        x.1.den > 0,
        0 <= j <= old_c.len(),
        forall|a: int| 0 <= a < j ==> ratio_ge(#[trigger] old_c[a].1, x.1),
        j < old_c.len() ==> !ratio_ge(old_c[j].1, x.1),
    ensures
        descending(old_c.insert(j, x)),
{
    let c = old_c.insert(j, x);
    old_c.insert_ensures(j, x);
    assert forall|a: int, b: int| 0 <= a < b < c.len() implies ratio_ge(c[a].1, c[b].1) by {
        lemma_sorted_pair(old_c, j, x, a, b);
    }
}

/// The weight of `t` in document `d`, which holds it.
fn weight_at(docs: &Vec<Vec<(String, Ratio)>>, d: u64, t: &String) -> (r: Ratio)
    requires
        1 <= d <= docs@.len(),
        has_key(docs@[d - 1]@, t@),
        is_weight_map(docs@[d - 1]@),
    ensures
        has_weight(docs@[d - 1]@, t@, r),
        r.den > 0,
{
    let count = docs.len();
    let idx: usize = (d - 1) as usize;
    assert(idx < count);
    let dw = &docs[idx];
    match weight_in(dw, t) {
        Some(w) => {
            proof {
                let wi = choose|wi: int| 0 <= wi < dw@.len() && #[trigger] dw@[wi].0@ == t@ && dw@[wi].1 == w;
            }
            w
        },
        None => {
            assert(false);
            Ratio { num: 0, den: 1 }
        },
    }
}

/// The TF-IDF cache of `t` rebuilt from its postings: each posted document
/// with its weight for `t`, by weight descending.
fn rebuild_cache(postings: &Vec<u64>, docs: &Vec<Vec<(String, Ratio)>>, t: &String) -> (c: Vec<(u64, Ratio)>)
    requires
        sound_postings(postings@, docs_view(docs@), t@),
        forall|d: int| 0 <= d < docs@.len() ==> is_weight_map(#[trigger] docs@[d]@),
    ensures
        partial_cache(c@, postings@, postings@.len() as int, docs_view(docs@), t@),
{
    let ghost dv = docs_view(docs@);
    let mut c: Vec<(u64, Ratio)> = Vec::new();
    proof {
        reveal(partial_cache);
    }
    let mut i: usize = 0;
    while i < postings.len()
        invariant
            i <= postings@.len(),
            dv == docs_view(docs@),
            sound_postings(postings@, dv, t@),
            forall|d: int| 0 <= d < docs@.len() ==> is_weight_map(#[trigger] docs@[d]@),
            partial_cache(c@, postings@, i as int, dv, t@),
        decreases postings@.len() - i,
    {
        let d = postings[i];
        assert(1 <= postings@[i as int] <= dv.len());
        assert(dv[d - 1] == docs@[d - 1]@);
        assert(is_weight_map(docs@[d - 1]@));
        let w = weight_at(docs, d, t);
        let mut j: usize = 0;
        while j < c.len() && ge(c[j].1, w)
            invariant
                j <= c@.len(),
                forall|a: int| 0 <= a < j ==> ratio_ge(#[trigger] c@[a].1, w),
            decreases c@.len() - j,
        {
            j = j + 1;
        }
        let ghost old_c = c@;
        c.insert(j, (d, w));
        proof {
            lemma_step(old_c, j as int, w, postings@, i as int, dv, t@);
        }
        i = i + 1;
    }
    c
}

/// A share that adds something to a score: `log10(n / df)` and the weight
/// are both nonzero. In an index where `1 <= df <= n`, a score is zero
/// exactly when none of its shares is of this kind.
pub open spec fn part_nonzero(p: Part) -> bool {
    p.n != p.df && p.weight.num != 0
}

pub open spec fn some_nonzero(ps: Seq<Part>) -> bool {
    exists|y: int| 0 <= y < ps.len() && part_nonzero(#[trigger] ps[y])
}

/// The snapshot of document `id`, whose weight map is `ws`: one entry per
/// term of the map, in its order, each with the term's weight in the document
/// and the IDF computed when the document came in (`n == id`, `1 <= df <= id`).
pub open spec fn snapshot_ok(snap: Seq<(String, Part)>, ws: Seq<(String, Ratio)>, id: int) -> bool {
    &&& snap.len() == ws.len()
    &&& forall|j: int| 0 <= j < snap.len() ==> (#[trigger] snap[j]).0@ == ws[j].0@ && snap[j].1.weight == ws[j].1
        && snap[j].1.n == id && 1 <= snap[j].1.df <= id
}

/// Some hit of `r` is for document `d`.
pub open spec fn has_hit(r: Seq<Hit>, d: u64) -> bool {
    exists|a: int| 0 <= a < r.len() && #[trigger] r[a].doc == d
}

/// Some of the first `k` entries of `ws` has the key `t`.
pub open spec fn touched(ws: Seq<(String, Ratio)>, k: int, t: Seq<char>) -> bool {
    exists|j: int| 0 <= j < k && #[trigger] ws[j].0@ == t
}

/// An IDF entry that was computed from `p` when the counter stood at its stamp.
pub open spec fn idf_ok(e: IdfEntry, p: Seq<u64>, op: nat) -> bool {
    &&& e.stamp <= op
    &&& e.n == e.stamp
    &&& e.df == p.len()
    &&& 1 <= e.df <= e.n
}

proof fn lemma_len_bound(p: Seq<u64>, n: int)
    requires
        forall|i: int, j: int| 0 <= i < j < p.len() ==> p[i] < p[j],
        forall|i: int| 0 <= i < p.len() ==> 1 <= #[trigger] p[i] <= n,
        n >= 0,
    ensures
        p.len() <= n,
    decreases p.len(),
{
    if p.len() > 0 {
        assert(1 <= p[0] <= n);
        let q = p.drop_last();
        assert forall|i: int| 0 <= i < q.len() implies 1 <= #[trigger] q[i] <= n - 1 by {
            assert(p[i] < p[p.len() - 1]);
        }
        lemma_len_bound(q, n - 1);
    }
}

proof fn lemma_sound_extend(p: Seq<u64>, docs: Seq<Seq<(String, Ratio)>>, t: Seq<char>, w: Seq<(String, Ratio)>)
    requires
        sound_postings(p, docs, t),
    ensures
        sound_postings(p, docs.push(w), t),
{
    let nd = docs.push(w);
    assert forall|i: int| 0 <= i < p.len() implies 1 <= #[trigger] p[i] <= nd.len() && has_key(nd[p[i] - 1], t) by {
        assert(nd[p[i] - 1] == docs[p[i] - 1]);
    }
}

proof fn lemma_sound_push(p: Seq<u64>, docs: Seq<Seq<(String, Ratio)>>, t: Seq<char>, w: Seq<(String, Ratio)>)
    requires
        sound_postings(p, docs, t),
        has_key(w, t),
        docs.len() < u64::MAX,
    ensures
        sound_postings(p.push((docs.len() + 1) as u64), docs.push(w), t),
{
    let nd = docs.push(w);
    let np = p.push((docs.len() + 1) as u64);
    assert forall|i: int| 0 <= i < np.len() implies 1 <= #[trigger] np[i] <= nd.len() && has_key(nd[np[i] - 1], t) by {
        if i < p.len() {
            assert(np[i] == p[i]);
            assert(nd[p[i] - 1] == docs[p[i] - 1]);
        } else {
            assert(np[i] == docs.len() + 1);
            assert(nd[docs.len() as int] == w);
        }
    }
    assert forall|a: int, b: int| 0 <= a < b < np.len() implies np[a] < np[b] by {
        if b < p.len() {
            assert(np[a] == p[a] && np[b] == p[b]);
        } else {
            assert(np[a] == p[a]);
            assert(np[b] == docs.len() + 1);
            assert(1 <= #[trigger] p[a] <= docs.len());
        }
    }
}

impl Index {
    /// The well-formedness of the index.
    pub closed spec fn wf(&self) -> bool {
        &&& self.last_id == self.docs@.len()
        &&& self.last_op == self.docs@.len()
        &&& self.snapshots@.len() == self.docs@.len()
        &&& forall|d: int| 0 <= d < self.docs@.len() ==> snapshot_ok(#[trigger] self.snapshots@[d]@, self.docs@[d]@, d + 1)
        &&& forall|d: int| 0 <= d < self.docs@.len() ==> is_weight_map(#[trigger] self.docs@[d]@)
        &&& forall|i: int, j: int| 0 <= i < j < self.terms@.len() ==> self.terms@[i].term@ != self.terms@[j].term@
        &&& forall|i: int| 0 <= i < self.terms@.len() ==> sound_postings(
            (#[trigger] self.terms@[i]).postings@,
            docs_view(self.docs@),
            self.terms@[i].term@,
        ) && idf_ok(self.terms@[i].idf, self.terms@[i].postings@, self.last_op as nat) && covers_docs(
            self.terms@[i].postings@,
            docs_view(self.docs@),
            self.terms@[i].term@,
        ) && partial_cache(
            self.terms@[i].cache@,
            self.terms@[i].postings@,
            self.terms@[i].postings@.len() as int,
            docs_view(self.docs@),
            self.terms@[i].term@,
        )
        &&& forall|d: int, t: Seq<char>| 1 <= d <= self.docs@.len() && #[trigger] has_key(docs_view(self.docs@)[d - 1], t)
            ==> exists|i: int| 0 <= i < self.terms@.len() && #[trigger] self.terms@[i].term@ == t
    }

    /// The number of documents indexed.
    pub closed spec fn doc_count(&self) -> nat {
        self.docs@.len()
    }

    /// The operation counter.
    pub closed spec fn op_count(&self) -> nat {
        self.last_op as nat
    }

    /// The weight maps of the documents; document `d` is at `d - 1`.
    pub closed spec fn docs(&self) -> Seq<Seq<(String, Ratio)>> {
        docs_view(self.docs@)
    }

    /// Whether some document holds the term.
    pub closed spec fn known(&self, t: Seq<char>) -> bool {
        exists|i: int| 0 <= i < self.terms@.len() && #[trigger] self.terms@[i].term@ == t
    }

    spec fn slot(&self, t: Seq<char>) -> int {
        choose|i: int| 0 <= i < self.terms@.len() && #[trigger] self.terms@[i].term@ == t
    }

    /// The IDF entry of a known term.
    pub closed spec fn idf_of(&self, t: Seq<char>) -> IdfEntry {
        self.terms@[self.slot(t)].idf
    }

    /// The snapshot taken when document `d` (counting from 1) came in.
    pub closed spec fn snapshot_of(&self, d: int) -> Seq<(String, Part)> {
        self.snapshots@[d - 1]@
    }

    /// The TF-IDF cache of a known term: documents with their weights for it.
    pub closed spec fn cache_of(&self, t: Seq<char>) -> Seq<(u64, Ratio)> {
        self.terms@[self.slot(t)].cache@
    }

    /// A known term's IDF entry lags behind the operation counter.
    pub open spec fn is_stale(&self, t: Seq<char>) -> bool {
        self.idf_of(t).stamp < self.op_count()
    }

    /// The share of document `d` for the term `t`: the term's IDF entry with
    /// the document's weight in the term's TF-IDF cache; none when the term is
    /// unknown or its cache does not hold the document.
    pub open spec fn part_of(&self, t: Seq<char>, d: u64) -> Seq<Part> {
        if self.known(t) && exists|k: int| 0 <= k < self.cache_of(t).len() && #[trigger] self.cache_of(t)[k].0 == d {
            let k = choose|k: int| 0 <= k < self.cache_of(t).len() && #[trigger] self.cache_of(t)[k].0 == d;
            seq![Part { n: self.idf_of(t).n, df: self.idf_of(t).df, weight: self.cache_of(t)[k].1 }]
        } else {
            Seq::empty()
        }
    }

    /// The shares of document `d` for the query `q`, in query order.
    pub open spec fn parts_for(&self, q: Seq<String>, d: u64) -> Seq<Part>
        decreases q.len(),
    {
        if q.len() == 0 {
            Seq::empty()
        } else {
            self.parts_for(q.drop_last(), d) + self.part_of(q.last()@, d)
        }
    }

    proof fn lemma_parts_source(&self, q: Seq<String>, d: u64)
        requires
            self.parts_for(q, d).len() > 0,
        ensures
            exists|x: int, k: int| 0 <= x < q.len() && self.known(q[x]@) && 0 <= k < self.cache_of(q[x]@).len()
                && #[trigger] self.cache_of(q[x]@)[k].0 == d,
        decreases q.len(),
    {
        let t = q.last()@;
        if self.part_of(t, d).len() > 0 {
            let k = choose|k: int| 0 <= k < self.cache_of(t).len() && #[trigger] self.cache_of(t)[k].0 == d;
            assert(q[q.len() - 1]@ == t);
            assert(self.cache_of(q[q.len() - 1]@)[k].0 == d);
        } else {
            assert(self.parts_for(q, d) == self.parts_for(q.drop_last(), d) + self.part_of(t, d));
            self.lemma_parts_source(q.drop_last(), d);
            let (x, k) = choose|x: int, k: int| 0 <= x < q.drop_last().len() && self.known(q.drop_last()[x]@) && 0 <= k
                < self.cache_of(q.drop_last()[x]@).len() && #[trigger] self.cache_of(q.drop_last()[x]@)[k].0 == d;
            assert(q.drop_last()[x] == q[x]);
            assert(self.cache_of(q[x]@)[k].0 == d);
        }
    }

    /// No known term is stale.
    pub open spec fn all_fresh(&self) -> bool {
        forall|t: Seq<char>| #[trigger] self.known(t) ==> !self.is_stale(t)
    }

    proof fn lemma_slot(&self, i: int)
        requires
            forall|a: int, b: int| 0 <= a < b < self.terms@.len() ==> self.terms@[a].term@ != self.terms@[b].term@,
            0 <= i < self.terms@.len(),
        ensures
            self.known(self.terms@[i].term@),
            self.slot(self.terms@[i].term@) == i,
    {
        let t = self.terms@[i].term@;
        assert(self.terms@[i].term@ == t);
        let j = self.slot(t);
        if j != i {
            if j < i {
                assert(self.terms@[j].term@ != self.terms@[i].term@);
            } else {
                assert(self.terms@[i].term@ != self.terms@[j].term@);
            }
        }
    }

    /// An empty index.
    pub fn new() -> (r: Index)
        ensures
            r.wf(),
            r.doc_count() == 0,
            r.op_count() == 0,
            r.docs() == Seq::<Seq<(String, Ratio)>>::empty(),
            forall|t: Seq<char>| !r.known(t),
    {
        let r = Index { last_id: 0, last_op: 0, docs: Vec::new(), terms: Vec::new(), snapshots: Vec::new() };
        assert(r.docs() =~= Seq::<Seq<(String, Ratio)>>::empty());
        r
    }

    fn find_term(&self, t: &String) -> (r: Option<usize>)
        ensures
            r is Some ==> r->Some_0 < self.terms@.len() && self.terms@[r->Some_0 as int].term@ == t@,
            r is None ==> forall|i: int| 0 <= i < self.terms@.len() ==> self.terms@[i].term@ != t@,
    {
        let mut i: usize = 0;
        while i < self.terms.len()
            invariant
                i <= self.terms@.len(),
                forall|j: int| 0 <= j < i ==> self.terms@[j].term@ != t@,
            decreases self.terms@.len() - i,
        {
            if self.terms[i].term == *t {
                return Some(i);
            }
            i = i + 1;
        }
        None
    }

    /// Indexes a document under the next identifier and returns it. Only the
    /// terms of this document get their statistics recomputed; every other
    /// term keeps its entry and falls behind the operation counter.
    pub fn add_doc(&mut self, weights: Vec<(String, Ratio)>) -> (r: u64)
        requires
            old(self).wf(),
            is_weight_map(weights@),
            old(self).doc_count() < u64::MAX,
        ensures
            final(self).wf(),
            r == old(self).doc_count() + 1,
            final(self).doc_count() == r,
            final(self).op_count() == old(self).op_count() + 1,
            final(self).docs() == old(self).docs().push(weights@),
            final(self).docs()[r - 1] == weights@,
            snapshot_ok(final(self).snapshot_of(r as int), weights@, r as int),
            forall|d: int| 1 <= d <= old(self).doc_count() ==> #[trigger] final(self).snapshot_of(d) == old(self).snapshot_of(d),
            forall|t: Seq<char>| old(self).known(t) ==> final(self).known(t),
            forall|t: Seq<char>| #[trigger] has_key(weights@, t) ==> final(self).known(t) && final(self).idf_of(t)
                == (IdfEntry { stamp: r, n: r, df: final(self).idf_of(t).df }) && !final(self).is_stale(t),
            forall|t: Seq<char>| old(self).known(t) && !has_key(weights@, t) ==> final(self).idf_of(t)
                == old(self).idf_of(t) && final(self).cache_of(t) == old(self).cache_of(t) && #[trigger] final(self).is_stale(t),
    {
        let ghost o = *old(self);
        let ghost wv = weights@;
        let id = self.last_id + 1;
        self.last_id = id;
        self.last_op = self.last_op + 1;
        let nidx = self.docs.len();
        self.docs.push(weights);
        let ghost ndv = docs_view(self.docs@);
        proof {
            assert(ndv =~= docs_view(o.docs@).push(wv));
        }
        let mut snap: Vec<(String, Part)> = Vec::new();
        let nterms = self.docs[nidx].len();
        let mut k: usize = 0;
        while k < nterms
            invariant
                0 <= k <= nterms,
                nidx == o.docs@.len(),
                id == nidx + 1,
                nterms == wv.len(),
                self.docs@ == o.docs@.push(self.docs@[nidx as int]),
                self.docs@[nidx as int]@ == wv,
                ndv == docs_view(self.docs@),
                ndv == docs_view(o.docs@).push(wv),
                is_weight_map(wv),
                o.wf(),
                self.last_id == id,
                self.last_op == id,
                self.snapshots == o.snapshots,
                snapshot_ok(snap@, wv.subrange(0, k as int), id as int),
                forall|d: int| 0 <= d < self.docs@.len() ==> is_weight_map(#[trigger] self.docs@[d]@),
                self.terms@.len() >= o.terms@.len(),
                forall|i: int, j: int| 0 <= i < j < self.terms@.len() ==> self.terms@[i].term@ != self.terms@[j].term@,
                forall|i: int| 0 <= i < o.terms@.len() ==> (#[trigger] self.terms@[i]).term@ == o.terms@[i].term@,
                forall|i: int| 0 <= i < o.terms@.len() && !touched(wv, k as int, (#[trigger] self.terms@[i]).term@) ==> self.terms@[i].idf
                    == o.terms@[i].idf && self.terms@[i].postings@ == o.terms@[i].postings@
                    && self.terms@[i].cache@ == o.terms@[i].cache@,
                forall|i: int| 0 <= i < self.terms@.len() ==> i < o.terms@.len() || touched(wv, k as int, (#[trigger] self.terms@[i]).term@),
                forall|i: int| 0 <= i < self.terms@.len() && touched(wv, k as int, (#[trigger] self.terms@[i]).term@) ==> self.terms@[i].idf.stamp
                    == id && self.terms@[i].idf.n == id && sound_postings(self.terms@[i].postings@, ndv, self.terms@[i].term@)
                    && idf_ok(self.terms@[i].idf, self.terms@[i].postings@, id as nat) && covers_docs(self.terms@[i].postings@, ndv, self.terms@[i].term@)
                    && partial_cache(self.terms@[i].cache@, self.terms@[i].postings@, self.terms@[i].postings@.len() as int, ndv, self.terms@[i].term@),
                forall|j: int| #![trigger wv[j]] 0 <= j < k ==> exists|i: int| 0 <= i < self.terms@.len() && #[trigger] self.terms@[i].term@ == wv[j].0@,
            decreases nterms - k,
        {
            let t = self.docs[nidx][k].0.clone();
            let w = self.docs[nidx][k].1;
            proof {
                assert(t@ == wv[k as int].0@);
                assert forall|j: int| 0 <= j < k implies wv[j].0@ != t@ by {}
                assert(!touched(wv, k as int, t@));
                assert(touched(wv, k + 1, t@));
                assert forall|u: Seq<char>| #[trigger] touched(wv, k + 1, u) && u != t@ implies touched(wv, k as int, u) by {
                    let j = choose|j: int| 0 <= j < k + 1 && #[trigger] wv[j].0@ == u;
                }
                assert(has_key(wv, t@));
            }
            let ghost before = self.terms@;
            let postings: Vec<u64>;
            let slot: usize;
            match self.find_term(&t) {
                Some(i) => {
                    proof {
                        if i >= o.terms@.len() {
                            assert(touched(wv, k as int, self.terms@[i as int].term@));
                        }
                        assert(sound_postings(o.terms@[i as int].postings@, docs_view(o.docs@), t@));
                        lemma_sound_push(o.terms@[i as int].postings@, docs_view(o.docs@), t@, wv);
                        assert(covers_docs(o.terms@[i as int].postings@, docs_view(o.docs@), t@));
                        lemma_covers_push(o.terms@[i as int].postings@, docs_view(o.docs@), t@, wv);
                    }
                    let mut e = TermStats {
                        term: String::new(),
                        postings: Vec::new(),
                        idf: IdfEntry { stamp: 0, n: 0, df: 0 },
                        cache: Vec::new(),
                    };
                    self.terms.set_and_swap(i, &mut e);
                    e.postings.push(id);
                    postings = e.postings;
                    slot = i;
                },
                None => {
                    let mut p: Vec<u64> = Vec::new();
                    p.push(id);
                    proof {
                        assert(sound_postings(Seq::<u64>::empty(), docs_view(o.docs@), t@));
                        lemma_sound_push(Seq::<u64>::empty(), docs_view(o.docs@), t@, wv);
                        assert forall|d: int| 1 <= d <= docs_view(o.docs@).len() && #[trigger] has_key(docs_view(o.docs@)[d - 1], t@)
                            implies Seq::<u64>::empty().contains(d as u64) by {
                            let i = choose|i: int| 0 <= i < o.terms@.len() && #[trigger] o.terms@[i].term@ == t@;
                            assert(self.terms@[i].term@ == t@);
                        }
                        lemma_covers_push(Seq::<u64>::empty(), docs_view(o.docs@), t@, wv);
                        assert(p@ == Seq::<u64>::empty().push(id));
                    }
                    postings = p;
                    self.terms.push(TermStats {
                        term: String::new(),
                        postings: Vec::new(),
                        idf: IdfEntry { stamp: 0, n: 0, df: 0 },
                        cache: Vec::new(),
                    });
                    slot = self.terms.len() - 1;
                },
            }
            proof {
                lemma_len_bound(postings@, id as int);
                assert(postings@.len() >= 1);
            }
            let df = postings.len() as u64;
            let idf = IdfEntry { stamp: id, n: id, df };
            let cache = rebuild_cache(&postings, &self.docs, &t);
            self.terms.set(slot, TermStats { term: t.clone(), postings, idf, cache });
            let ghost snap0 = snap@;
            snap.push((t, Part { n: id, df, weight: w }));
            proof {
                assert(wv.subrange(0, k + 1) =~= wv.subrange(0, k as int).push(wv[k as int]));
                assert forall|j: int| 0 <= j < snap@.len() implies (#[trigger] snap@[j]).0@ == wv.subrange(0, k + 1)[j].0@
                    && snap@[j].1.weight == wv.subrange(0, k + 1)[j].1 && snap@[j].1.n == id && 1 <= snap@[j].1.df <= id by {
                    if j < k {
                        assert(snap@[j] == snap0[j]);
                    }
                }
                assert forall|i: int, j: int| 0 <= i < j < self.terms@.len() implies self.terms@[i].term@
                    != self.terms@[j].term@ by {
                    if i == slot {
                        assert(before[j].term@ != t@);
                    } else if j == slot {
                        assert(before[i].term@ != t@);
                    } else {
                        assert(before[i].term@ != before[j].term@);
                    }
                }
                assert forall|j: int| #![trigger wv[j]] 0 <= j < k + 1 implies exists|i: int| 0 <= i < self.terms@.len() && #[trigger] self.terms@[i].term@ == wv[j].0@ by {
                    if j == k {
                        assert(self.terms@[slot as int].term@ == wv[j].0@);
                    } else {
                        let i = choose|i: int| 0 <= i < before.len() && #[trigger] before[i].term@ == wv[j].0@;
                        assert(self.terms@[i].term@ == wv[j].0@);
                    }
                }
                assert forall|i: int| 0 <= i < self.terms@.len() && touched(wv, k + 1, (#[trigger] self.terms@[i]).term@) implies self.terms@[i].idf.stamp
                    == id && self.terms@[i].idf.n == id && sound_postings(self.terms@[i].postings@, ndv, self.terms@[i].term@)
                    && idf_ok(self.terms@[i].idf, self.terms@[i].postings@, id as nat) && covers_docs(self.terms@[i].postings@, ndv, self.terms@[i].term@)
                    && partial_cache(self.terms@[i].cache@, self.terms@[i].postings@, self.terms@[i].postings@.len() as int, ndv, self.terms@[i].term@) by {
                    if i != slot {
                        assert(self.terms@[i] == before[i]);
                        assert(touched(wv, k as int, before[i].term@));
                    }
                }
                assert forall|i: int| 0 <= i < self.terms@.len() implies i < o.terms@.len() || touched(wv, k + 1, (#[trigger] self.terms@[i]).term@) by {
                    if i != slot {
                        assert(self.terms@[i] == before[i]);
                        if !(i < o.terms@.len()) {
                            assert(touched(wv, k as int, before[i].term@));
                        }
                    }
                }
            }
            k = k + 1;
        }
        let ghost snapv = snap@;
        self.snapshots.push(snap);
        proof {
            assert(wv.subrange(0, nterms as int) =~= wv);
            assert forall|d: int| 0 <= d < self.docs@.len() implies snapshot_ok(#[trigger] self.snapshots@[d]@, self.docs@[d]@, d + 1) by {
                if d < o.docs@.len() {
                    assert(self.snapshots@[d] == o.snapshots@[d]);
                    assert(self.docs@[d] == o.docs@[d]);
                } else {
                    assert(self.snapshots@[d]@ == snapv);
                }
            }
            assert forall|i: int| 0 <= i < self.terms@.len() implies sound_postings(
                (#[trigger] self.terms@[i]).postings@,
                docs_view(self.docs@),
                self.terms@[i].term@,
            ) && idf_ok(self.terms@[i].idf, self.terms@[i].postings@, self.last_op as nat) && covers_docs(
                self.terms@[i].postings@,
                docs_view(self.docs@),
                self.terms@[i].term@,
            ) && partial_cache(
                self.terms@[i].cache@,
                self.terms@[i].postings@,
                self.terms@[i].postings@.len() as int,
                docs_view(self.docs@),
                self.terms@[i].term@,
            ) by {
                if !touched(wv, nterms as int, self.terms@[i].term@) {
                    lemma_sound_extend(o.terms@[i].postings@, docs_view(o.docs@), o.terms@[i].term@, wv);
                    assert(!has_key(wv, o.terms@[i].term@));
                    lemma_covers_extend(o.terms@[i].postings@, docs_view(o.docs@), o.terms@[i].term@, wv);
                    lemma_cache_extend(o.terms@[i].cache@, o.terms@[i].postings@, docs_view(o.docs@), o.terms@[i].term@, wv);
                }
            }
            assert forall|d: int, t: Seq<char>| 1 <= d <= self.docs@.len() && #[trigger] has_key(docs_view(self.docs@)[d - 1], t)
                implies exists|i: int| 0 <= i < self.terms@.len() && #[trigger] self.terms@[i].term@ == t by {
                if d <= o.docs@.len() {
                    assert(docs_view(self.docs@)[d - 1] == docs_view(o.docs@)[d - 1]);
                    let i = choose|i: int| 0 <= i < o.terms@.len() && #[trigger] o.terms@[i].term@ == t;
                    assert(self.terms@[i].term@ == t);
                } else {
                    let j = choose|j: int| 0 <= j < wv.len() && #[trigger] wv[j].0@ == t;
                    assert(wv[j].0@ == t);
                }
            }
            assert(self.wf());
            assert forall|t: Seq<char>| o.known(t) implies self.known(t) by {
                let i = choose|i: int| 0 <= i < o.terms@.len() && #[trigger] o.terms@[i].term@ == t;
                assert(self.terms@[i].term@ == t);
            }
            assert forall|t: Seq<char>| #[trigger] has_key(wv, t) implies self.known(t) && self.idf_of(t)
                == (IdfEntry { stamp: id, n: id, df: self.idf_of(t).df }) by {
                let j = choose|j: int| 0 <= j < wv.len() && #[trigger] wv[j].0@ == t;
                let i = choose|i: int| 0 <= i < self.terms@.len() && #[trigger] self.terms@[i].term@ == wv[j].0@;
                self.lemma_slot(i);
                assert(touched(wv, nterms as int, t));
            }
            assert forall|t: Seq<char>| o.known(t) && !has_key(wv, t) implies self.idf_of(t) == o.idf_of(t)
                && #[trigger] self.is_stale(t) by {
                let i = o.slot(t);
                o.lemma_slot(i);
                self.lemma_slot(i);
                assert(self.terms@[i].term@ == t);
                assert(self.terms@[i].cache@ == o.terms@[i].cache@);
                if touched(wv, nterms as int, t) {
                    let j = choose|j: int| 0 <= j < nterms && #[trigger] wv[j].0@ == t;
                }
            }
        }
        id
    }

    /// Recomputes the IDF entry and the TF-IDF cache of every stale term
    /// against the current corpus, stamping it with the operation counter.
    /// Fresh terms are left as they are, so a second call changes nothing.
    pub fn update_index(&mut self)
        requires
            old(self).wf(),
        ensures
            final(self).wf(),
            final(self).docs() == old(self).docs(),
            final(self).doc_count() == old(self).doc_count(),
            final(self).op_count() == old(self).op_count(),
            forall|t: Seq<char>| #[trigger] final(self).known(t) == old(self).known(t),
            forall|t: Seq<char>| #[trigger] final(self).known(t) ==> final(self).idf_of(t).stamp == final(self).op_count(),
            forall|t: Seq<char>| old(self).known(t) && #[trigger] old(self).is_stale(t) ==> final(self).idf_of(t).stamp
                == final(self).op_count() && final(self).idf_of(t).n == final(self).doc_count(),
            forall|t: Seq<char>| old(self).known(t) && !old(self).is_stale(t) ==> #[trigger] final(self).idf_of(t)
                == old(self).idf_of(t) && final(self).cache_of(t) == old(self).cache_of(t),
            final(self).all_fresh(),
    {
        let ghost o = *old(self);
        let op = self.last_op;
        let n = self.docs.len() as u64;
        let mut i: usize = 0;
        while i < self.terms.len()
            invariant
                o.wf(),
                i <= self.terms@.len(),
                self.terms@.len() == o.terms@.len(),
                self.docs == o.docs,
                self.last_id == o.last_id,
                self.last_op == o.last_op,
                self.snapshots == o.snapshots,
                op == o.last_op,
                n == o.docs@.len(),
                forall|j: int| 0 <= j < self.terms@.len() ==> (#[trigger] self.terms@[j]).term@ == o.terms@[j].term@
                    && self.terms@[j].postings@ == o.terms@[j].postings@,
                forall|j: int| i <= j < self.terms@.len() ==> #[trigger] self.terms@[j] == o.terms@[j],
                forall|j: int| 0 <= j < i && o.terms@[j].idf.stamp < op ==> (#[trigger] self.terms@[j]).idf.stamp == op
                    && self.terms@[j].idf.n == op && idf_ok(self.terms@[j].idf, self.terms@[j].postings@, op as nat)
                    && partial_cache(self.terms@[j].cache@, self.terms@[j].postings@, self.terms@[j].postings@.len() as int, docs_view(self.docs@), self.terms@[j].term@),
                forall|j: int| 0 <= j < i && o.terms@[j].idf.stamp >= op ==> #[trigger] self.terms@[j] == o.terms@[j],
            decreases self.terms@.len() - i,
        {
            if self.terms[i].idf.stamp < op {
                let mut e = TermStats {
                    term: String::new(),
                    postings: Vec::new(),
                    idf: IdfEntry { stamp: 0, n: 0, df: 0 },
                    cache: Vec::new(),
                };
                let ghost before = self.terms@;
                self.terms.set_and_swap(i, &mut e);
                proof {
                    assert(e == o.terms@[i as int]);
                    assert(sound_postings(e.postings@, docs_view(self.docs@), e.term@));
                }
                proof {
                    lemma_len_bound(e.postings@, n as int);
                    assert(idf_ok(o.terms@[i as int].idf, o.terms@[i as int].postings@, op as nat));
                }
                let df = e.postings.len() as u64;
                e.idf = IdfEntry { stamp: op, n, df };
                e.cache = rebuild_cache(&e.postings, &self.docs, &e.term);
                self.terms.set(i, e);
                proof {
                    assert forall|j: int| i < j < self.terms@.len() implies #[trigger] self.terms@[j] == o.terms@[j] by {
                        assert(self.terms@[j] == before[j]);
                    }
                    assert forall|j: int| 0 <= j < i implies #[trigger] self.terms@[j] == before[j] by {}
                }
            }
            i = i + 1;
        }
        proof {
            assert forall|j: int| 0 <= j < self.terms@.len() implies sound_postings(
                (#[trigger] self.terms@[j]).postings@,
                docs_view(self.docs@),
                self.terms@[j].term@,
            ) && idf_ok(self.terms@[j].idf, self.terms@[j].postings@, self.last_op as nat) && covers_docs(
                self.terms@[j].postings@,
                docs_view(self.docs@),
                self.terms@[j].term@,
            ) && partial_cache(
                self.terms@[j].cache@,
                self.terms@[j].postings@,
                self.terms@[j].postings@.len() as int,
                docs_view(self.docs@),
                self.terms@[j].term@,
            ) by {
                assert(sound_postings(o.terms@[j].postings@, docs_view(o.docs@), o.terms@[j].term@));
                assert(covers_docs(o.terms@[j].postings@, docs_view(o.docs@), o.terms@[j].term@));
            }
            assert forall|d: int, t: Seq<char>| 1 <= d <= self.docs@.len() && #[trigger] has_key(docs_view(self.docs@)[d - 1], t)
                implies exists|i: int| 0 <= i < self.terms@.len() && #[trigger] self.terms@[i].term@ == t by {
                let i = choose|i: int| 0 <= i < o.terms@.len() && #[trigger] o.terms@[i].term@ == t;
                assert(self.terms@[i].term@ == t);
            }
            assert forall|a: int, b: int| 0 <= a < b < self.terms@.len() implies self.terms@[a].term@ != self.terms@[b].term@ by {
                assert(o.terms@[a].term@ != o.terms@[b].term@);
            }
            assert(self.wf());
            assert forall|t: Seq<char>| #[trigger] self.known(t) == o.known(t) by {
                if self.known(t) {
                    let j = choose|j: int| 0 <= j < self.terms@.len() && #[trigger] self.terms@[j].term@ == t;
                    assert(o.terms@[j].term@ == t);
                }
                if o.known(t) {
                    let j = choose|j: int| 0 <= j < o.terms@.len() && #[trigger] o.terms@[j].term@ == t;
                    assert(self.terms@[j].term@ == t);
                }
            }
            assert forall|t: Seq<char>| o.known(t) implies (o.is_stale(t) ==> self.idf_of(t).stamp == op && self.idf_of(t).n == n)
                && (!o.is_stale(t) ==> self.idf_of(t) == o.idf_of(t) && self.cache_of(t) == o.cache_of(t)) && !self.is_stale(t) by {
                let j = o.slot(t);
                o.lemma_slot(j);
                self.lemma_slot(j);
                assert(self.terms@[j].term@ == t);
            }
            assert forall|t: Seq<char>| #[trigger] self.known(t) implies !self.is_stale(t) && self.idf_of(t).stamp == op by {
                assert(o.known(t));
                let j = self.slot(t);
                self.lemma_slot(j);
                assert(idf_ok(self.terms@[j].idf, self.terms@[j].postings@, self.last_op as nat));
            }
        }
    }

    /// The documents of the caches of the known query terms, each once.
    fn candidates(&self, terms: &Vec<String>) -> (r: Vec<u64>)
        requires
            self.wf(),
        ensures
            forall|a: int, b: int| 0 <= a < b < r@.len() ==> r@[a] != r@[b],
            forall|x: int, k: int| #![trigger self.cache_of(terms@[x]@)[k]] 0 <= x < terms@.len() && self.known(terms@[x]@) && 0 <= k
                < self.cache_of(terms@[x]@).len() ==> r@.contains(self.cache_of(terms@[x]@)[k].0),
    {
        let mut cand: Vec<u64> = Vec::new();
        let mut q: usize = 0;
        while q < terms.len()
            invariant
                self.wf(),
                q <= terms@.len(),
                forall|a: int, b: int| 0 <= a < b < cand@.len() ==> cand@[a] != cand@[b],
                forall|x: int, k: int| #![trigger self.cache_of(terms@[x]@)[k]] 0 <= x < q && self.known(terms@[x]@) && 0 <= k
                    < self.cache_of(terms@[x]@).len() ==> cand@.contains(self.cache_of(terms@[x]@)[k].0),
            decreases terms@.len() - q,
        {
            match self.find_term(&terms[q]) {
                None => {
                    proof {
                        assert(!self.known(terms@[q as int]@));
                    }
                },
                Some(ti) => {
                    proof {
                        assert(forall|a: int, b: int| 0 <= a < b < self.terms@.len() ==> self.terms@[a].term@ != self.terms@[b].term@);
                        self.lemma_slot(ti as int);
                    }
                    let e = &self.terms[ti];
                    let mut k: usize = 0;
                    while k < e.cache.len()
                        invariant
                            k <= e.cache@.len(),
                            q < terms@.len(),
                            self.cache_of(terms@[q as int]@) == e.cache@,
                            forall|a: int, b: int| 0 <= a < b < cand@.len() ==> cand@[a] != cand@[b],
                            forall|x: int, kk: int| #![trigger self.cache_of(terms@[x]@)[kk]] 0 <= x < q && self.known(terms@[x]@)
                                && 0 <= kk < self.cache_of(terms@[x]@).len() ==> cand@.contains(self.cache_of(terms@[x]@)[kk].0),
                            forall|kk: int| #![trigger e.cache@[kk]] 0 <= kk < k ==> cand@.contains(e.cache@[kk].0),
                        decreases e.cache@.len() - k,
                    {
                        let d = e.cache[k].0;
                        let mut h: usize = 0;
                        while h < cand.len() && cand[h] != d
                            invariant
                                h <= cand@.len(),
                                forall|a: int| 0 <= a < h ==> cand@[a] != d,
                            decreases cand@.len() - h,
                        {
                            h = h + 1;
                        }
                        let ghost before = cand@;
                        if h == cand.len() {
                            cand.push(d);
                            proof {
                                assert forall|y: u64| before.contains(y) implies cand@.contains(y) by {
                                    let a = choose|a: int| 0 <= a < before.len() && before[a] == y;
                                    assert(cand@[a] == y);
                                }
                                assert(cand@[before.len() as int] == d);
                            }
                        } else {
                            assert(cand@[h as int] == d);
                        }
                        k = k + 1;
                    }
                },
            }
            q = q + 1;
        }
        cand
    }

    /// The shares of document `d` for the query, in query order.
    fn doc_parts(&self, terms: &Vec<String>, d: u64) -> (r: Vec<Part>)
        requires
            self.wf(),
        ensures
            r@ == self.parts_for(terms@, d),
    {
        let mut parts: Vec<Part> = Vec::new();
        let mut x: usize = 0;
        while x < terms.len()
            invariant
                self.wf(),
                x <= terms@.len(),
                parts@ == self.parts_for(terms@.subrange(0, x as int), d),
            decreases terms@.len() - x,
        {
            let ghost sub = terms@.subrange(0, x + 1);
            let ghost t = terms@[x as int]@;
            proof {
                assert(sub.drop_last() =~= terms@.subrange(0, x as int));
                assert(sub.last()@ == t);
            }
            match self.find_term(&terms[x]) {
                None => {
                    proof {
                        assert(!self.known(t));
                        assert(self.part_of(t, d) =~= Seq::<Part>::empty());
                        assert(parts@ =~= self.parts_for(sub, d));
                    }
                },
                Some(ti) => {
                    proof {
                        assert(forall|a: int, b: int| 0 <= a < b < self.terms@.len() ==> self.terms@[a].term@ != self.terms@[b].term@);
                        self.lemma_slot(ti as int);
                        lemma_cache_exact(self, t);
                    }
                    let e = &self.terms[ti];
                    let mut k: usize = 0;
                    while k < e.cache.len() && e.cache[k].0 != d
                        invariant
                            k <= e.cache@.len(),
                            forall|a: int| 0 <= a < k ==> e.cache@[a].0 != d,
                        decreases e.cache@.len() - k,
                    {
                        k = k + 1;
                    }
                    let ghost before = parts@;
                    if k < e.cache.len() {
                        parts.push(Part { n: e.idf.n, df: e.idf.df, weight: e.cache[k].1 });
                        proof {
                            assert(self.cache_of(t) == e.cache@);
                            assert(self.cache_of(t)[k as int].0 == d);
                            let kk = choose|kk: int| 0 <= kk < self.cache_of(t).len() && #[trigger] self.cache_of(t)[kk].0 == d;
                            if kk != k {
                                if kk < k {
                                    assert(self.cache_of(t)[kk].0 != self.cache_of(t)[k as int].0);
                                } else {
                                    assert(self.cache_of(t)[k as int].0 != self.cache_of(t)[kk].0);
                                }
                            }
                            assert(self.part_of(t, d) == seq![Part { n: e.idf.n, df: e.idf.df, weight: e.cache@[k as int].1 }]);
                            assert(parts@ =~= before + self.part_of(t, d));
                        }
                    } else {
                        proof {
                            assert(self.cache_of(t) == e.cache@);
                            assert(self.part_of(t, d) =~= Seq::<Part>::empty());
                            assert(parts@ =~= before + self.part_of(t, d));
                        }
                    }
                },
            }
            x = x + 1;
        }
        proof {
            assert(terms@.subrange(0, x as int) =~= terms@);
        }
        parts
    }

    /// The documents whose score for the query is nonzero, each once, with
    /// one share of its score for each query term whose cache holds it, in
    /// query order; the score is the sum of the shares. Unknown terms
    /// contribute nothing.
    pub fn search(&self, terms: &Vec<String>) -> (r: Vec<Hit>)
        requires
            self.wf(),
        ensures
            forall|a: int, b: int| 0 <= a < b < r@.len() ==> r@[a].doc != r@[b].doc,
            forall|a: int| 0 <= a < r@.len() ==> (#[trigger] r@[a]).parts@ == self.parts_for(terms@, r@[a].doc)
                && some_nonzero(r@[a].parts@),
            forall|d: u64| #[trigger] some_nonzero(self.parts_for(terms@, d)) ==> has_hit(r@, d),
    {
        let cand = self.candidates(terms);
        let mut hits: Vec<Hit> = Vec::new();
        let mut i: usize = 0;
        while i < cand.len()
            invariant
                self.wf(),
                i <= cand@.len(),
                forall|a: int, b: int| 0 <= a < b < cand@.len() ==> cand@[a] != cand@[b],
                forall|a: int| 0 <= a < hits@.len() ==> exists|j: int| 0 <= j < i && cand@[j] == (#[trigger] hits@[a]).doc,
                forall|a: int, b: int| 0 <= a < b < hits@.len() ==> hits@[a].doc != hits@[b].doc,
                forall|a: int| 0 <= a < hits@.len() ==> (#[trigger] hits@[a]).parts@ == self.parts_for(terms@, hits@[a].doc)
                    && some_nonzero(hits@[a].parts@),
                forall|j: int| 0 <= j < i && some_nonzero(self.parts_for(terms@, #[trigger] cand@[j])) ==> has_hit(hits@, cand@[j]),
            decreases cand@.len() - i,
        {
            let d = cand[i];
            let parts = self.doc_parts(terms, d);
            let mut y: usize = 0;
            let mut nonzero = false;
            while y < parts.len() && !nonzero
                invariant
                    y <= parts@.len(),
                    nonzero ==> some_nonzero(parts@),
                    !nonzero ==> forall|z: int| 0 <= z < y ==> !part_nonzero(#[trigger] parts@[z]),
                decreases parts@.len() - y,
            {
                let p = parts[y];
                if p.n != p.df && p.weight.num != 0 {
                    nonzero = true;
                    assert(part_nonzero(parts@[y as int]));
                }
                y = y + 1;
            }
            let ghost before = hits@;
            if nonzero {
                hits.push(Hit { doc: d, parts });
                proof {
                    assert forall|a: int| 0 <= a < hits@.len() implies exists|j: int| 0 <= j < i + 1 && cand@[j] == (#[trigger] hits@[a]).doc by {
                        if a < before.len() {
                            assert(hits@[a] == before[a]);
                            let j = choose|j: int| 0 <= j < i && cand@[j] == (#[trigger] before[a]).doc;
                        } else {
                            assert(cand@[i as int] == hits@[a].doc);
                        }
                    }
                    assert forall|a: int, b: int| 0 <= a < b < hits@.len() implies hits@[a].doc != hits@[b].doc by {
                        if b == before.len() {
                            assert(hits@[a] == before[a]);
                            let j = choose|j: int| 0 <= j < i && cand@[j] == (#[trigger] before[a]).doc;
                        } else {
                            assert(hits@[a] == before[a] && hits@[b] == before[b]);
                        }
                    }
                    assert forall|a: int| 0 <= a < hits@.len() implies (#[trigger] hits@[a]).parts@ == self.parts_for(terms@, hits@[a].doc)
                        && some_nonzero(hits@[a].parts@) by {
                        if a < before.len() {
                            assert(hits@[a] == before[a]);
                        }
                    }
                    assert forall|j: int| 0 <= j < i + 1 && some_nonzero(self.parts_for(terms@, #[trigger] cand@[j])) implies has_hit(hits@, cand@[j]) by {
                        if j < i {
                            let a = choose|a: int| 0 <= a < before.len() && #[trigger] before[a].doc == cand@[j];
                            assert(hits@[a] == before[a]);
                        } else {
                            assert(hits@[before.len() as int].doc == cand@[j]);
                        }
                    }
                }
            } else {
                proof {
                    assert(!some_nonzero(parts@));
                }
            }
            i = i + 1;
        }
        proof {
            assert forall|d: u64| #[trigger] some_nonzero(self.parts_for(terms@, d)) implies has_hit(hits@, d) by {
                self.lemma_parts_source(terms@, d);
                let (x, k) = choose|x: int, k: int| 0 <= x < terms@.len() && self.known(terms@[x]@) && 0 <= k
                    < self.cache_of(terms@[x]@).len() && #[trigger] self.cache_of(terms@[x]@)[k].0 == d;
                assert(cand@.contains(self.cache_of(terms@[x]@)[k].0));
                let j = choose|j: int| 0 <= j < cand@.len() && cand@[j] == d;
                assert(some_nonzero(self.parts_for(terms@, cand@[j])));
            }
        }
        hits
    }

    /// The snapshot taken when document `id` came in, if there is such a document.
    pub fn snapshot(&self, id: u64) -> (r: Option<Vec<(String, Part)>>)
        requires
            self.wf(),
        ensures
            r is Some <==> 1 <= id <= self.doc_count(),
            r is Some ==> r->Some_0@ == self.snapshot_of(id as int),
    {
        if id == 0 || id > self.last_id {
            return None;
        }
        let count = self.snapshots.len();
        assert(id <= count);
        let pos: usize = (id - 1) as usize;
        assert(pos == id - 1);
        let src = &self.snapshots[pos];
        let mut out: Vec<(String, Part)> = Vec::new();
        let mut k: usize = 0;
        while k < src.len()
            invariant
                k <= src@.len(),
                out@ == src@.subrange(0, k as int),
            decreases src@.len() - k,
        {
            let term = src[k].0.clone();
            out.push((term, src[k].1));
            proof {
                assert(src@.subrange(0, k + 1) =~= src@.subrange(0, k as int).push(src@[k as int]));
            }
            k = k + 1;
        }
        proof {
            assert(src@.subrange(0, k as int) =~= src@);
            assert(self.snapshot_of(id as int) == self.snapshots@[pos as int]@);
        }
        Some(out)
    }

    /// The number of documents indexed; also the last identifier given out.
    pub fn len(&self) -> (r: u64)
        requires
            self.wf(),
        ensures
            r == self.doc_count(),
    {
        self.last_id
    }

    /// The operation counter.
    pub fn op(&self) -> (r: u64)
        ensures
            r == self.op_count(),
    {
        self.last_op
    }

    /// The IDF entry of a term, if some document holds it.
    pub fn idf(&self, t: &String) -> (r: Option<IdfEntry>)
        requires
            self.wf(),
        ensures
            r == (if self.known(t@) { Some(self.idf_of(t@)) } else { None::<IdfEntry> }),
    {
        match self.find_term(t) {
            Some(i) => {
                proof {
                    self.lemma_slot(i as int);
                }
                Some(self.terms[i].idf)
            },
            None => None,
        }
    }

    /// The TF-IDF cache of a term, if some document holds it: each document
    /// with the term's weight in it, by weight descending.
    pub fn tfidf(&self, t: &String) -> (r: Option<Vec<(u64, Ratio)>>)
        requires
            self.wf(),
        ensures
            r is Some <==> self.known(t@),
            r is Some ==> r->Some_0@ == self.cache_of(t@),
    {
        match self.find_term(t) {
            Some(i) => {
                proof {
                    self.lemma_slot(i as int);
                }
                let c = &self.terms[i].cache;
                let mut out: Vec<(u64, Ratio)> = Vec::new();
                let mut k: usize = 0;
                while k < c.len()
                    invariant
                        k <= c@.len(),
                        out@ == c@.subrange(0, k as int),
                    decreases c@.len() - k,
                {
                    out.push(c[k]);
                    proof {
                        assert(c@.subrange(0, k + 1) =~= c@.subrange(0, k as int).push(c@[k as int]));
                    }
                    k = k + 1;
                }
                proof {
                    assert(c@.subrange(0, k as int) =~= c@);
                }
                Some(out)
            },
            None => None,
        }
    }

    /// Whether a term's IDF entry lags behind the operation counter; `None`
    /// for a term that no document holds.
    pub fn stale(&self, t: &String) -> (r: Option<bool>)
        requires
            self.wf(),
        ensures
            r == (if self.known(t@) { Some(self.is_stale(t@)) } else { None::<bool> }),
    {
        match self.idf(t) {
            Some(e) => Some(e.stamp < self.last_op),
            None => None,
        }
    }
}

proof fn lemma_full_postings(p: Seq<u64>, n: int)
    requires
        forall|i: int, j: int| 0 <= i < j < p.len() ==> p[i] < p[j],
        forall|i: int| 0 <= i < p.len() ==> 1 <= #[trigger] p[i] <= n,
        p.len() == n,
    ensures
        forall|i: int| 0 <= i < p.len() ==> #[trigger] p[i] == i + 1,
    decreases p.len(),
{
    if p.len() > 0 {
        let q = p.drop_last();
        assert forall|i: int| 0 <= i < q.len() implies 1 <= #[trigger] q[i] <= n - 1 by {
            assert(p[i] < p[p.len() - 1]);
        }
        lemma_full_postings(q, n - 1);
        if p.len() > 1 {
            assert(q[q.len() - 1] == n - 1);
            assert(p[p.len() - 2] < p[p.len() - 1]);
        }
        assert forall|i: int| 0 <= i < p.len() implies #[trigger] p[i] == i + 1 by {
            if i < q.len() {
                assert(p[i] == q[i]);
            }
        }
    }
}

/// The IDF `log10(n / df)` of every known term is non-negative: its document
/// frequency is at least one and at most the corpus size it was computed for,
/// which is the current corpus size when the entry is fresh.
pub proof fn lemma_idf_nonnegative(idx: &Index, t: Seq<char>)
    requires
        idx.wf(),
        idx.known(t),
    ensures
        1 <= idx.idf_of(t).df <= idx.idf_of(t).n,
        idx.idf_of(t).n <= idx.doc_count(),
        !idx.is_stale(t) ==> idx.idf_of(t).n == idx.doc_count(),
{
    let i = idx.slot(t);
    assert(idf_ok(idx.terms@[i].idf, idx.terms@[i].postings@, idx.last_op as nat));
}

proof fn lemma_at_least(p: Seq<u64>, i: int)
    requires
        forall|a: int, b: int| 0 <= a < b < p.len() ==> p[a] < p[b],
        forall|a: int| 0 <= a < p.len() ==> 1 <= #[trigger] p[a],
        0 <= i < p.len(),
    ensures
        p[i] >= i + 1,
    decreases i,
{
    if i > 0 {
        lemma_at_least(p, i - 1);
    }
}

proof fn lemma_prefix_exact(p: Seq<u64>, n: int, i: int)
    requires
        forall|a: int, b: int| 0 <= a < b < p.len() ==> p[a] < p[b],
        forall|a: int| 0 <= a < p.len() ==> 1 <= #[trigger] p[a] <= n,
        forall|v: int| 1 <= v <= n ==> #[trigger] p.contains(v as u64),
        0 <= i < p.len(),
        i < n,
    ensures
        p[i] == i + 1,
    decreases i,
{
    assert(p.contains((i + 1) as u64));
    let j = choose|j: int| 0 <= j < p.len() && p[j] == (i + 1) as u64;
    lemma_at_least(p, j);
    lemma_at_least(p, i);
    if i > 0 {
        lemma_prefix_exact(p, n, i - 1);
        if j < i {
            if j < i - 1 {
                assert(p[j] < p[i - 1]);
            }
        }
    }
    if j < i {
        assert(p[j] < p[i]);
    }
}

/// The IDF `log10(n / df)` of a fresh term is zero exactly when every
/// document holds the term.
pub proof fn lemma_idf_zero_iff_in_every_doc(idx: &Index, t: Seq<char>)
    requires
        idx.wf(),
        idx.known(t),
        !idx.is_stale(t),
    ensures
        idx.idf_of(t).df == idx.idf_of(t).n <==> forall|d: int| 1 <= d <= idx.doc_count() ==> #[trigger] has_key(
            idx.docs()[d - 1],
            t,
        ),
{
    let i = idx.slot(t);
    let p = idx.terms@[i].postings@;
    let n = idx.docs@.len() as int;
    assert(idf_ok(idx.terms@[i].idf, p, idx.last_op as nat));
    assert(sound_postings(p, docs_view(idx.docs@), idx.terms@[i].term@));
    assert(covers_docs(p, docs_view(idx.docs@), idx.terms@[i].term@));
    if idx.idf_of(t).df == idx.idf_of(t).n {
        lemma_full_postings(p, n);
        assert forall|d: int| 1 <= d <= idx.doc_count() implies #[trigger] has_key(idx.docs()[d - 1], t) by {
            assert(p[d - 1] == d);
        }
    }
    if forall|d: int| 1 <= d <= idx.doc_count() ==> #[trigger] has_key(idx.docs()[d - 1], t) {
        assert forall|v: int| 1 <= v <= n implies #[trigger] p.contains(v as u64) by {
            assert(1 <= v <= idx.doc_count());
            assert(has_key(idx.docs()[v - 1], t));
            assert(idx.terms@[i].term@ == t);
        }
        lemma_len_bound(p, n);
        if p.len() < n {
            assert(p.contains(n as u64));
            let j = choose|j: int| 0 <= j < p.len() && p[j] == n as u64;
            lemma_prefix_exact(p, n, j);
        }
    }
}

proof fn lemma_cache_facts(c: Seq<(u64, Ratio)>, p: Seq<u64>, dv: Seq<Seq<(String, Ratio)>>, t: Seq<char>)
    requires
        partial_cache(c, p, p.len() as int, dv, t),
        sound_postings(p, dv, t),
        covers_docs(p, dv, t),
        dv.len() <= u64::MAX,
    ensures
        forall|k: int| 0 <= k < c.len() ==> 1 <= (#[trigger] c[k]).0 <= dv.len() && has_weight(dv[c[k].0 - 1], t, c[k].1),
        forall|d: int| 1 <= d <= dv.len() && #[trigger] has_key(dv[d - 1], t) ==> exists|k: int| 0 <= k < c.len() && (#[trigger] c[k]).0 == d,
        forall|a: int, b: int| #![trigger c[a], c[b]] 0 <= a < b < c.len() ==> c[a].0 != c[b].0 && ratio_ge(c[a].1, c[b].1),
        c.len() == p.len(),
{
    reveal(partial_cache);
    assert forall|a: int, b: int| #![trigger c[a], c[b]] 0 <= a < b < c.len() implies c[a].0 != c[b].0 && ratio_ge(c[a].1, c[b].1) by {
        assert(ids_distinct(c));
        assert(descending(c));
    }
    assert forall|k: int| 0 <= k < c.len() implies 1 <= (#[trigger] c[k]).0 <= dv.len() by {
        let q = choose|q: int| #![trigger p[q]] 0 <= q < p.len() && p[q] == c[k].0;
        assert(1 <= p[q] <= dv.len());
    }
    assert forall|d: int| 1 <= d <= dv.len() && #[trigger] has_key(dv[d - 1], t) implies exists|k: int| 0 <= k < c.len() && (#[trigger] c[k]).0 == d by {
        assert(p.contains(d as u64));
        let q = choose|q: int| 0 <= q < p.len() && p[q] == d as u64;
        assert(p[q] == d);
    }
}

/// A known term's TF-IDF cache lists each document that holds the term once,
/// with the term's weight there, by weight descending, and nothing else; its
/// document frequency is the cache's length, and when the term is fresh its
/// IDF was computed for the current corpus size.
pub proof fn lemma_cache_exact(idx: &Index, t: Seq<char>)
    requires
        idx.wf(),
        idx.known(t),
    ensures
        forall|k: int| 0 <= k < idx.cache_of(t).len() ==> 1 <= (#[trigger] idx.cache_of(t)[k]).0 <= idx.doc_count()
            && has_weight(idx.docs()[idx.cache_of(t)[k].0 - 1], t, idx.cache_of(t)[k].1),
        forall|d: int| 1 <= d <= idx.doc_count() && #[trigger] has_key(idx.docs()[d - 1], t) ==> exists|k: int|
            0 <= k < idx.cache_of(t).len() && (#[trigger] idx.cache_of(t)[k]).0 == d,
        forall|a: int, b: int| #![trigger idx.cache_of(t)[a], idx.cache_of(t)[b]] 0 <= a < b < idx.cache_of(t).len()
            ==> idx.cache_of(t)[a].0 != idx.cache_of(t)[b].0 && ratio_ge(idx.cache_of(t)[a].1, idx.cache_of(t)[b].1),
        idx.idf_of(t).df == idx.cache_of(t).len(),
        !idx.is_stale(t) ==> idx.idf_of(t).n == idx.doc_count(),
{
    let i = idx.slot(t);
    let e = idx.terms@[i];
    let dv = docs_view(idx.docs@);
    assert(e.term@ == t);
    assert(idf_ok(e.idf, e.postings@, idx.last_op as nat));
    assert(sound_postings(e.postings@, dv, t));
    assert(covers_docs(e.postings@, dv, t));
    assert(partial_cache(e.cache@, e.postings@, e.postings@.len() as int, dv, t));
    lemma_cache_facts(e.cache@, e.postings@, dv, t);
    assert(idx.cache_of(t) == e.cache@);
    assert(idx.docs() == dv);
    let c = idx.cache_of(t);
    assert forall|a: int, b: int| #![trigger c[a], c[b]] 0 <= a < b < c.len() implies c[a].0 != c[b].0 && ratio_ge(c[a].1, c[b].1) by {
        assert(e.cache@[a].0 != e.cache@[b].0 && ratio_ge(e.cache@[a].1, e.cache@[b].1));
    }
}

/// Document `d`, counting from 1, has its weight map at `docs()[d - 1]`:
/// there is one weight map for each document.
pub proof fn lemma_docs_len(idx: &Index)
    requires
        idx.wf(),
    ensures
        idx.docs().len() == idx.doc_count(),
        idx.op_count() == idx.doc_count(),
{
}

/// The snapshot of each document holds one entry per term of its weight
/// map, with that weight and the IDF computed when the document came in.
pub proof fn lemma_snapshot(idx: &Index, d: int)
    requires
        idx.wf(),
        1 <= d <= idx.doc_count(),
    ensures
        snapshot_ok(idx.snapshot_of(d), idx.docs()[d - 1], d),
{
    assert(snapshot_ok(idx.snapshots@[d - 1]@, idx.docs@[d - 1]@, d));
}

} // verus!
