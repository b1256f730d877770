//! Ranking of scored keywords: by score, highest first, and among equal
//! scores by keyword in lexicographic order of characters.
use vstd::prelude::*;

verus! {

/// Whether `a` comes before `b` in lexicographic order of characters.
pub open spec fn lex_lt(a: Seq<char>, b: Seq<char>) -> bool
    decreases a.len(),
{
    if b.len() == 0 {
        false
    } else if a.len() == 0 {
        true
    } else if a[0] != b[0] {
        a[0] < b[0]
    } else {
        lex_lt(a.drop_first(), b.drop_first())
    }
}

/// Whether entry `a` must come strictly before entry `b`: a higher score,
/// or an equal score and a smaller keyword.
pub open spec fn ahead(a: (Seq<char>, u64), b: (Seq<char>, u64)) -> bool {
    a.1 > b.1 || (a.1 == b.1 && lex_lt(a.0, b.0))
}

/// Whether entry `a` may come before entry `b`.
pub open spec fn not_behind(a: (Seq<char>, u64), b: (Seq<char>, u64)) -> bool {
    ahead(a, b) || a == b
}

/// Every entry may come before each later one.
pub open spec fn is_ranked(s: Seq<(Seq<char>, u64)>) -> bool {
    forall|i: int, j: int| 0 <= i < j < s.len() ==> not_behind(#[trigger] s[i], #[trigger] s[j])
}

/// The place where `e` goes in `s`: before the first entry that it must
/// come ahead of.
pub open spec fn slot(s: Seq<(Seq<char>, u64)>, e: (Seq<char>, u64)) -> int
    decreases s.len(),
{
    if s.len() == 0 {
        0
    } else if ahead(e, s[0]) {
        0
    } else {
        1 + slot(s.drop_first(), e)
    }
}

/// The entries of `s`, ranked: each in turn goes into its slot.
pub open spec fn ranked(s: Seq<(Seq<char>, u64)>) -> Seq<(Seq<char>, u64)>
    decreases s.len(),
{
    if s.len() == 0 {
        seq![]
    } else {
        let r = ranked(s.drop_last());
        r.insert(slot(r, s.last()), s.last())
    }
}

/// A keyword with a score, as a number whose order is the order of scores.
pub struct Scored {
    pub keyword: String,
    pub score: u64,
}

/// The entries of a list of scored keywords.
pub open spec fn scored_view(s: Seq<Scored>) -> Seq<(Seq<char>, u64)> {
    s.map_values(|x: Scored| (x.keyword@, x.score))
}

proof fn lemma_lex_trans(a: Seq<char>, b: Seq<char>, c: Seq<char>)
    requires
        lex_lt(a, b),
        lex_lt(b, c),
    ensures
        lex_lt(a, c),
    decreases a.len(),
{
    if a.len() > 0 && b.len() > 0 && c.len() > 0 && a[0] == b[0] && b[0] == c[0] {
        lemma_lex_trans(a.drop_first(), b.drop_first(), c.drop_first());
    }
}

proof fn lemma_lex_total(a: Seq<char>, b: Seq<char>)
    requires
        !lex_lt(a, b),
        !lex_lt(b, a),
    ensures
        a == b,
    decreases a.len(),
{
    if a.len() > 0 && b.len() > 0 {
        if a[0] == b[0] {
            lemma_lex_total(a.drop_first(), b.drop_first());
            assert(a =~= seq![a[0]] + a.drop_first());
            assert(b =~= seq![b[0]] + b.drop_first());
        }
    } else {
        assert(a.len() == 0 && b.len() == 0);
        assert(a =~= b);
    }
}

proof fn lemma_ahead_trans(a: (Seq<char>, u64), b: (Seq<char>, u64), c: (Seq<char>, u64))
    requires
        ahead(a, b),
        not_behind(b, c),
    ensures
        ahead(a, c),
{
    if b != c && a.1 == c.1 {
        lemma_lex_trans(a.0, b.0, c.0);
    }
}

proof fn lemma_behind(a: (Seq<char>, u64), b: (Seq<char>, u64))
    requires
        !ahead(a, b),
    ensures
        not_behind(b, a),
{
    if a.1 == b.1 && !lex_lt(b.0, a.0) {
        lemma_lex_total(a.0, b.0);
    }
}

proof fn lemma_slot(s: Seq<(Seq<char>, u64)>, e: (Seq<char>, u64))
    ensures
        0 <= slot(s, e) <= s.len(),
        forall|k: int| 0 <= k < slot(s, e) ==> !ahead(e, #[trigger] s[k]),
        slot(s, e) < s.len() ==> ahead(e, s[slot(s, e)]),
    decreases s.len(),
{
    if s.len() > 0 && !ahead(e, s[0]) {
        lemma_slot(s.drop_first(), e);
        assert forall|k: int| 0 <= k < slot(s, e) implies !ahead(e, #[trigger] s[k]) by {
            if k > 0 {
                assert(s[k] == s.drop_first()[k - 1]);
            }
        }
    }
}

/// The ranking puts every entry where it may stand: a higher score first,
/// and among equal scores the smaller keyword first.
pub proof fn lemma_ranked_is_ranked(s: Seq<(Seq<char>, u64)>)
    ensures
        is_ranked(ranked(s)),
    decreases s.len(),
{
    if s.len() > 0 {
        let r = ranked(s.drop_last());
        let e = s.last();
        lemma_ranked_is_ranked(s.drop_last());
        lemma_slot(r, e);
        let p = slot(r, e);
        let t = r.insert(p, e);
        assert forall|i: int, j: int| 0 <= i < j < t.len() implies not_behind(
            #[trigger] t[i],
            #[trigger] t[j],
        ) by {
            if j < p {
                assert(not_behind(r[i], r[j]));
            } else if j == p {
                lemma_behind(e, r[i]);
            } else if i < p {
                assert(not_behind(r[i], r[j - 1]));
            } else if i == p {
                if j - 1 > p {
                    assert(not_behind(r[p], r[j - 1]));
                }
                lemma_ahead_trans(e, r[p], r[j - 1]);
            } else {
                assert(not_behind(r[i - 1], r[j - 1]));
            }
        }
    }
}

/// The ranking holds the same entries as its input, as often.
pub proof fn lemma_ranked_same_entries(s: Seq<(Seq<char>, u64)>)
    ensures
        ranked(s).to_multiset() == s.to_multiset(),
        ranked(s).len() == s.len(),
    decreases s.len(),
{
    broadcast use vstd::seq_lib::group_to_multiset_ensures;

    if s.len() > 0 {
        let r = ranked(s.drop_last());
        lemma_ranked_same_entries(s.drop_last());
        lemma_slot(r, s.last());
        vstd::seq_lib::to_multiset_insert(r, slot(r, s.last()), s.last());
        assert(s =~= s.drop_last().push(s.last()));
    } else {
        assert(ranked(s) =~= s);
    }
}

proof fn lemma_lex_asym(a: Seq<char>, b: Seq<char>)
    requires
        lex_lt(a, b),
    ensures
        !lex_lt(b, a),
    decreases a.len(),
{
    if a.len() > 0 && b.len() > 0 && a[0] == b[0] {
        lemma_lex_asym(a.drop_first(), b.drop_first());
    }
}

proof fn lemma_ranked_seqs_equal(r1: Seq<(Seq<char>, u64)>, r2: Seq<(Seq<char>, u64)>)
    requires
        is_ranked(r1),
        is_ranked(r2),
        r1.to_multiset() == r2.to_multiset(),
    ensures
        r1 == r2,
    decreases r1.len(),
{
    broadcast use vstd::seq_lib::group_to_multiset_ensures;

    vstd::seq_lib::to_multiset_len(r1);
    vstd::seq_lib::to_multiset_len(r2);
    if r1.len() == 0 {
        assert(r1 =~= r2);
    } else {
        assert(r2.len() > 0);
        let x = r1[0];
        let y = r2[0];
        assert(r1.contains(x));
        assert(r2.to_multiset().count(x) > 0);
        assert(r2.contains(x));
        let j = choose|j: int| 0 <= j < r2.len() && r2[j] == x;
        assert(r1.to_multiset().count(y) > 0);
        assert(r1.contains(y));
        let i = choose|i: int| 0 <= i < r1.len() && r1[i] == y;
        if x != y {
            assert(j > 0 && i > 0);
            assert(not_behind(r2[0], r2[j]));
            assert(not_behind(r1[0], r1[i]));
            if x.1 == y.1 {
                lemma_lex_asym(x.0, y.0);
            }
            assert(false);
        }
        assert(r1.drop_first() =~= r1.remove(0));
        assert(r2.drop_first() =~= r2.remove(0));
        let t1 = r1.drop_first();
        let t2 = r2.drop_first();
        assert forall|a: int, b: int| 0 <= a < b < t1.len() implies not_behind(
            #[trigger] t1[a],
            #[trigger] t1[b],
        ) by {
            assert(not_behind(r1[a + 1], r1[b + 1]));
        }
        assert forall|a: int, b: int| 0 <= a < b < t2.len() implies not_behind(
            #[trigger] t2[a],
            #[trigger] t2[b],
        ) by {
            assert(not_behind(r2[a + 1], r2[b + 1]));
        }
        vstd::seq_lib::to_multiset_remove(r1, 0);
        vstd::seq_lib::to_multiset_remove(r2, 0);
        lemma_ranked_seqs_equal(t1, t2);
        assert forall|k: int| 0 <= k < r1.len() implies r1[k] == r2[k] by {
            if k > 0 {
                assert(r1[k] == t1[k - 1]);
                assert(r2[k] == t2[k - 1]);
            }
        }
        assert(r1 =~= r2);
    }
}

/// The ranking depends only on which entries there are, and how often, not
/// on the order in which they come: a text's candidates rank the same way
/// on every run.
pub proof fn lemma_ranking_ignores_order(s1: Seq<(Seq<char>, u64)>, s2: Seq<(Seq<char>, u64)>)
    requires
        s1.to_multiset() == s2.to_multiset(),
    ensures
        ranked(s1) == ranked(s2),
{
    lemma_ranked_is_ranked(s1);
    lemma_ranked_is_ranked(s2);
    lemma_ranked_same_entries(s1);
    lemma_ranked_same_entries(s2);
    lemma_ranked_seqs_equal(ranked(s1), ranked(s2));
}

/// Whether `a` comes before `b` in lexicographic order of characters.
fn key_less(a: &String, b: &String) -> (r: bool)
    ensures
        r == lex_lt(a@, b@),
{
    let na = a.as_str().unicode_len();
    let nb = b.as_str().unicode_len();
    let mut i: usize = 0;
    assert(a@.skip(0) =~= a@);
    assert(b@.skip(0) =~= b@);
    while i < na && i < nb
        invariant
            0 <= i <= na,
            i <= nb,
            na == a@.len(),
            nb == b@.len(),
            lex_lt(a@, b@) == lex_lt(a@.skip(i as int), b@.skip(i as int)),
        decreases na - i,
    {
        let ca = a.as_str().get_char(i);
        let cb = b.as_str().get_char(i);
        assert(a@.skip(i as int)[0] == ca);
        assert(b@.skip(i as int)[0] == cb);
        if ca != cb {
            return ca < cb;
        }
        assert(a@.skip(i as int).drop_first() =~= a@.skip(i + 1));
        assert(b@.skip(i as int).drop_first() =~= b@.skip(i + 1));
        i += 1;
    }
    i < nb
}

/// Whether `a` must come strictly before `b`.
fn goes_ahead(a: &Scored, b: &Scored) -> (r: bool)
    ensures
        r == ahead((a.keyword@, a.score), (b.keyword@, b.score)),
{
    a.score > b.score || (a.score == b.score && key_less(&a.keyword, &b.keyword))
}

/// The scored keywords ranked: highest score first, and among equal scores
/// the smaller keyword first.
pub fn rank(items: &Vec<Scored>) -> (r: Vec<Scored>)
    ensures
        scored_view(r@) == ranked(scored_view(items@)),
        is_ranked(scored_view(r@)),
        scored_view(r@).to_multiset() == scored_view(items@).to_multiset(),
        r.len() == items.len(),
{
    proof {
        lemma_ranked_is_ranked(scored_view(items@));
        lemma_ranked_same_entries(scored_view(items@));
    }
    let ghost sv = scored_view(items@);
    let mut out: Vec<Scored> = Vec::new();
    let mut i: usize = 0;
    assert(scored_view(out@) =~= ranked(sv.take(0)));
    while i < items.len()
        invariant
            0 <= i <= items.len(),
            sv == scored_view(items@),
            scored_view(out@) == ranked(sv.take(i as int)),
        decreases items.len() - i,
    {
        assert(sv.take(i + 1).drop_last() =~= sv.take(i as int));
        let e = Scored { keyword: items[i].keyword.clone(), score: items[i].score };
        assert(sv.take(i + 1).last() == (e.keyword@, e.score));
        let ghost ov = scored_view(out@);
        let mut k: usize = 0;
        assert(ov.skip(0) =~= ov);
        while k < out.len() && !goes_ahead(&e, &out[k])
            invariant
                0 <= k <= out.len(),
                ov == scored_view(out@),
                slot(ov, (e.keyword@, e.score)) == k + slot(ov.skip(k as int), (e.keyword@, e.score)),
            decreases out.len() - k,
        {
            assert(ov.skip(k as int)[0] == ov[k as int]);
            assert(ov.skip(k as int).drop_first() =~= ov.skip(k + 1));
            k += 1;
        }
        proof {
            if k < out.len() {
                assert(ov.skip(k as int)[0] == ov[k as int]);
            }
        }
        out.insert(k, e);
        assert(scored_view(out@) =~= ov.insert(k as int, (e.keyword@, e.score)));
        i += 1;
    }
    assert(sv.take(i as int) =~= sv);
    out
}

} // verus!
