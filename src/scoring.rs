//! Word scores and candidate scores over the phrases of one text.
use vstd::prelude::*;
use crate::rake::{document, is_stopword, phrases_of, runs, Rake};
use crate::text::{punct_pieces, words_of};
use crate::text::number_like;

verus! {

/// The number of tokens of a phrase that are not numbers.
pub open spec fn effective_len(p: Seq<Seq<char>>) -> nat
    decreases p.len(),
{
    if p.len() == 0 {
        0
    } else {
        effective_len(p.drop_last()) + if number_like(p.last()) {
            0nat
        } else {
            1nat
        }
    }
}

/// The number of times `w` occurs in `p`.
pub open spec fn count_in(p: Seq<Seq<char>>, w: Seq<char>) -> nat
    decreases p.len(),
{
    if p.len() == 0 {
        0
    } else {
        count_in(p.drop_last(), w) + if p.last() == w {
            1nat
        } else {
            0nat
        }
    }
}

/// The number of tokens of all phrases.
pub open spec fn total_tokens(doc: Seq<Seq<Seq<char>>>) -> nat
    decreases doc.len(),
{
    if doc.len() == 0 {
        0
    } else {
        total_tokens(doc.drop_last()) + doc.last().len()
    }
}

/// What one phrase adds to the degree of `w`: one less than its effective
/// length for each time `w` occurs in it; an all-number phrase adds nothing.
pub open spec fn degree_in(p: Seq<Seq<char>>, w: Seq<char>) -> nat {
    if effective_len(p) > 0 {
        count_in(p, w) * (effective_len(p) - 1) as nat
    } else {
        0
    }
}

/// How often a word occurs over all phrases.
pub open spec fn frequency(doc: Seq<Seq<Seq<char>>>, w: Seq<char>) -> nat
    decreases doc.len(),
{
    if doc.len() == 0 {
        0
    } else {
        frequency(doc.drop_last(), w) + count_in(doc.last(), w)
    }
}

/// The co-occurrences of a word with the other non-number words of the
/// phrases that hold it, over all phrases.
pub open spec fn degree(doc: Seq<Seq<Seq<char>>>, w: Seq<char>) -> nat
    decreases doc.len(),
{
    if doc.len() == 0 {
        0
    } else {
        degree(doc.drop_last(), w) + degree_in(doc.last(), w)
    }
}

/// The tallies of one word over a text: its score is
/// `(degree + freq) / freq`.
pub struct WordScore {
    pub word: String,
    pub freq: usize,
    pub degree: u128,
}

/// The key of a phrase: its tokens joined with single spaces.
pub open spec fn join_words(p: Seq<Seq<char>>) -> Seq<char>
    decreases p.len(),
{
    if p.len() == 0 {
        seq![]
    } else if p.len() == 1 {
        p[0]
    } else {
        join_words(p.drop_last()) + seq![' '] + p.last()
    }
}

/// The word tallies `(freq, degree)` that make up the score of phrase `p`
/// within `doc`, one for each token that is not a number, in order.
pub open spec fn terms_of(doc: Seq<Seq<Seq<char>>>, p: Seq<Seq<char>>) -> Seq<(nat, nat)>
    decreases p.len(),
{
    if p.len() == 0 {
        seq![]
    } else {
        terms_of(doc, p.drop_last()) + if number_like(p.last()) {
            seq![]
        } else {
            seq![(frequency(doc, p.last()), degree(doc, p.last()))]
        }
    }
}

/// The candidates of the first `n` phrases of `doc`: each key maps to the
/// tallies of its phrase; a later phrase with the same key replaces an
/// earlier one.
pub open spec fn candidate_map(doc: Seq<Seq<Seq<char>>>, n: int) -> Map<Seq<char>, Seq<(nat, nat)>>
    decreases n,
{
    if n <= 0 {
        Map::empty()
    } else {
        candidate_map(doc, n - 1).insert(join_words(doc[n - 1]), terms_of(doc, doc[n - 1]))
    }
}

/// The tallies of one word of a candidate: its score is
/// `(degree + freq) / freq`.
pub struct Term {
    pub freq: usize,
    pub degree: u128,
}

/// A candidate keyword and the tallies of its words.
pub struct Candidate {
    pub keyword: String,
    pub terms: Vec<Term>,
}

/// The tallies held in a list of terms.
pub open spec fn terms_view(t: Seq<Term>) -> Seq<(nat, nat)> {
    t.map_values(|x: Term| (x.freq as nat, x.degree as nat))
}

/// `c` holds each key of `m` once, with its tallies, and nothing else.
pub open spec fn candidate_table(c: Seq<Candidate>, m: Map<Seq<char>, Seq<(nat, nat)>>) -> bool {
    &&& forall|k1: int, k2: int|
        0 <= k1 < k2 < c.len() ==> #[trigger] c[k1].keyword@ != #[trigger] c[k2].keyword@
    &&& forall|k: int|
        0 <= k < c.len() ==> m.contains_key(#[trigger] c[k].keyword@) && m[c[k].keyword@]
            == terms_view(c[k].terms@)
    &&& forall|key: Seq<char>|
        #[trigger] m.contains_key(key) ==> exists|k: int| 0 <= k < c.len() && c[k].keyword@ == key
}

/// A word table entry holds the tallies of its word over the phrases `prev`
/// and the tokens `part` of one more phrase whose effective length is
/// `em1 + 1`, and stays within the bounds that keep its sums in range.
spec fn tallied(
    x: WordScore,
    prev: Seq<Seq<Seq<char>>>,
    part: Seq<Seq<char>>,
    em1: nat,
    seen: int,
    total: nat,
) -> bool {
    &&& !number_like(x.word@)
    &&& x.freq > 0
    &&& x.freq as int == frequency(prev, x.word@) + count_in(part, x.word@)
    &&& x.degree as int == degree(prev, x.word@) + count_in(part, x.word@) * em1
    &&& x.freq <= seen
    &&& x.degree <= x.freq * total
}

/// `tab` is the word table of `doc`: one entry for each non-number word
/// that occurs, holding its frequency and degree.
pub open spec fn word_table(tab: Seq<WordScore>, doc: Seq<Seq<Seq<char>>>) -> bool {
    &&& forall|k: int|
        0 <= k < tab.len() ==> {
            &&& !number_like(#[trigger] tab[k].word@)
            &&& tab[k].freq > 0
            &&& tab[k].freq as int == frequency(doc, tab[k].word@)
            &&& tab[k].degree as int == degree(doc, tab[k].word@)
        }
    &&& forall|k1: int, k2: int|
        0 <= k1 < k2 < tab.len() ==> #[trigger] tab[k1].word@ != #[trigger] tab[k2].word@
    &&& forall|w: Seq<char>|
        !number_like(w) && #[trigger] frequency(doc, w) > 0 ==> exists|k: int|
            0 <= k < tab.len() && tab[k].word@ == w
}

proof fn lemma_count_bounded(p: Seq<Seq<char>>, w: Seq<char>)
    requires
        !number_like(w),
    ensures
        count_in(p, w) <= effective_len(p),
    decreases p.len(),
{
    if p.len() > 0 {
        lemma_count_bounded(p.drop_last(), w);
    }
}

proof fn lemma_total_prefix(doc: Seq<Seq<Seq<char>>>, i: int)
    requires
        0 <= i < doc.len(),
    ensures
        total_tokens(doc.take(i)) + doc[i].len() <= total_tokens(doc),
    decreases doc.len(),
{
    if i == doc.len() - 1 {
        assert(doc.drop_last() =~= doc.take(i));
    } else {
        lemma_total_prefix(doc.drop_last(), i);
        assert(doc.drop_last().take(i) =~= doc.take(i));
    }
}

proof fn lemma_degree_zero(doc: Seq<Seq<Seq<char>>>, w: Seq<char>)
    requires
        frequency(doc, w) == 0,
    ensures
        degree(doc, w) == 0,
    decreases doc.len(),
{
    if doc.len() > 0 {
        lemma_degree_zero(doc.drop_last(), w);
        let n = effective_len(doc.last());
        assert(count_in(doc.last(), w) == 0);
        assert(0 * (n - 1) as nat == 0) by (nonlinear_arith);
    }
}

/// The place of `w` in a word table, if it has one.
fn find_word(tab: &Vec<WordScore>, w: &String) -> (r: Option<usize>)
    ensures
        match r {
            Some(k) => k < tab.len() && tab@[k as int].word@ == w@,
            None => forall|m: int| 0 <= m < tab.len() ==> tab@[m].word@ != w@,
        },
{
    let mut k: usize = 0;
    while k < tab.len()
        invariant
            0 <= k <= tab.len(),
            forall|m: int| 0 <= m < k ==> tab@[m].word@ != w@,
        decreases tab.len() - k,
    {
        if tab[k].word == *w {
            return Some(k);
        }
        k += 1;
    }
    None
}

proof fn lemma_count_member(p: Seq<Seq<char>>, j: int)
    requires
        0 <= j < p.len(),
    ensures
        count_in(p, p[j]) >= 1,
    decreases p.len(),
{
    if j < p.len() - 1 {
        lemma_count_member(p.drop_last(), j);
    }
}

proof fn lemma_frequency_member(doc: Seq<Seq<Seq<char>>>, i: int, w: Seq<char>)
    requires
        0 <= i < doc.len(),
    ensures
        frequency(doc, w) >= count_in(doc[i], w),
    decreases doc.len(),
{
    if i < doc.len() - 1 {
        lemma_frequency_member(doc.drop_last(), i, w);
    }
}

/// A run of words that holds a word that is not a stopword, or that follows
/// words already gathered, gives at least one phrase.
proof fn lemma_runs_nonempty(stop: Set<Seq<char>>, words: Seq<Seq<char>>, buf: Seq<Seq<char>>, j: int)
    requires
        buf.len() > 0 || (0 <= j < words.len() && !is_stopword(stop, words[j])),
    ensures
        runs(stop, words, buf).len() > 0,
    decreases words.len(),
{
    if words.len() > 0 {
        if is_stopword(stop, words[0]) {
            if buf.len() == 0 {
                assert(words.drop_first()[j - 1] == words[j]);
                lemma_runs_nonempty(stop, words.drop_first(), seq![], j - 1);
            }
        } else {
            lemma_runs_nonempty(stop, words.drop_first(), buf.push(words[0]), j - 1);
        }
    }
}

proof fn lemma_phrases_nonempty(stop: Set<Seq<char>>, pieces: Seq<Seq<char>>, i: int, j: int)
    requires
        0 <= i < pieces.len(),
        pieces[i].len() > 0,
        0 <= j < words_of(pieces[i]).len(),
        !is_stopword(stop, words_of(pieces[i])[j]),
    ensures
        phrases_of(stop, pieces).len() > 0,
    decreases pieces.len(),
{
    if i == pieces.len() - 1 {
        lemma_runs_nonempty(stop, words_of(pieces[i]), seq![], j);
    } else {
        assert(pieces.drop_last()[i] == pieces[i]);
        lemma_phrases_nonempty(stop, pieces.drop_last(), i, j);
    }
}

/// A text with a word that is not a stopword, inside a non-empty piece
/// between punctuation, has at least one candidate keyword.
pub proof fn lemma_word_gives_candidate(
    stop: Set<Seq<char>>,
    text: Seq<char>,
    i: int,
    j: int,
    c: Seq<Candidate>,
)
    requires
        0 <= i < punct_pieces(text).len(),
        punct_pieces(text)[i].len() > 0,
        0 <= j < words_of(punct_pieces(text)[i]).len(),
        !is_stopword(stop, words_of(punct_pieces(text)[i])[j]),
        candidate_table(c, candidate_map(document(stop, text), document(stop, text).len() as int)),
    ensures
        c.len() > 0,
{
    let doc = document(stop, text);
    lemma_phrases_nonempty(stop, punct_pieces(text), i, j);
    let key = join_words(doc[doc.len() - 1]);
    assert(candidate_map(doc, doc.len() as int).contains_key(key));
}

/// A phrase all of whose tokens are numbers adds no word score to its
/// candidate, and none of its tokens gets a frequency of its own: its score
/// is zero.
pub proof fn lemma_numbers_score_nothing(doc: Seq<Seq<Seq<char>>>, p: Seq<Seq<char>>)
    requires
        forall|k: int| 0 <= k < p.len() ==> number_like(#[trigger] p[k]),
    ensures
        terms_of(doc, p).len() == 0,
        effective_len(p) == 0,
    decreases p.len(),
{
    if p.len() > 0 {
        assert forall|k: int| 0 <= k < p.drop_last().len() implies number_like(
            #[trigger] p.drop_last()[k],
        ) by {
            assert(p.drop_last()[k] == p[k]);
        }
        lemma_numbers_score_nothing(doc, p.drop_last());
    }
}

/// The place of `key` in a candidate table, if it has one.
fn find_keyword(c: &Vec<Candidate>, key: &String) -> (r: Option<usize>)
    ensures
        match r {
            Some(k) => k < c.len() && c@[k as int].keyword@ == key@,
            None => forall|m: int| 0 <= m < c.len() ==> c@[m].keyword@ != key@,
        },
{
    let mut k: usize = 0;
    while k < c.len()
        invariant
            0 <= k <= c.len(),
            forall|m: int| 0 <= m < k ==> c@[m].keyword@ != key@,
        decreases c.len() - k,
    {
        if c[k].keyword == *key {
            return Some(k);
        }
        k += 1;
    }
    None
}

/// The key of a phrase: its tokens joined with single spaces.
pub fn join_phrase(p: &Vec<String>) -> (r: String)
    ensures
        r@ == join_words(p.deep_view()),
{
    let ghost ps = p.deep_view();
    let mut key = String::new();
    let mut j: usize = 0;
    proof {
        reveal_strlit(" ");
    }
    while j < p.len()
        invariant
            0 <= j <= p.len(),
            ps == p.deep_view(),
            key@ == join_words(ps.take(j as int)),
            " "@ == seq![' '],
        decreases p.len() - j,
    {
        assert(ps.take(j + 1).drop_last() =~= ps.take(j as int));
        assert(ps.take(j + 1).last() == p[j as int]@);
        if j > 0 {
            key.append(" ");
        } else {
            assert(seq![] + ps[0] =~= ps[0]);
        }
        key.append(p[j].as_str());
        j += 1;
    }
    assert(ps.take(j as int) =~= ps);
    key
}

impl Rake {
    /// The number of tokens of `p` that are not numbers.
    fn count_words(&self, p: &Vec<String>) -> (r: usize)
        ensures
            r == effective_len(p.deep_view()),
            r <= p.len(),
    {
        let ghost ps = p.deep_view();
        let mut n: usize = 0;
        let mut j: usize = 0;
        while j < p.len()
            invariant
                0 <= j <= p.len(),
                ps == p.deep_view(),
                n == effective_len(ps.take(j as int)),
                n <= j,
            decreases p.len() - j,
        {
            assert(ps.take(j + 1).drop_last() =~= ps.take(j as int));
            if !self.is_number(p[j].as_str()) {
                n += 1;
            }
            j += 1;
        }
        assert(ps.take(j as int) =~= ps);
        n
    }

    /// The word table of `phrases`: for each non-number word, how often it
    /// occurs and its degree.
    pub fn word_scores(&self, phrases: &Vec<Vec<String>>) -> (r: Vec<WordScore>)
        requires
            total_tokens(phrases.deep_view()) <= usize::MAX,
        ensures
            word_table(r@, phrases.deep_view()),
            forall|k: int| 0 <= k < r.len() ==> !number_like(#[trigger] r@[k].word@),
    {
        let ghost doc = phrases.deep_view();
        let ghost total = total_tokens(doc);
        let mut tab: Vec<WordScore> = Vec::new();
        let mut seen: usize = 0;
        let mut i: usize = 0;
        while i < phrases.len()
            invariant
                0 <= i <= phrases.len(),
                doc == phrases.deep_view(),
                total == total_tokens(doc),
                total <= usize::MAX,
                seen == total_tokens(doc.take(i as int)),
                word_table(tab@, doc.take(i as int)),
                forall|k: int|
                    0 <= k < tab.len() ==> #[trigger] tab[k].freq <= seen && tab[k].degree
                        <= tab[k].freq * total,
            decreases phrases.len() - i,
        {
            let p = &phrases[i];
            let ghost ps = p.deep_view();
            let ghost prev = doc.take(i as int);
            let ghost next = doc.take(i + 1);
            assert(next.drop_last() =~= prev);
            assert(next.last() == ps);
            proof {
                lemma_total_prefix(doc, i as int);
            }
            let e = self.count_words(p);
            if e == 0 {
                assert forall|w: Seq<char>| !number_like(w) implies count_in(ps, w) == 0 by {
                    lemma_count_bounded(ps, w);
                }
                assert forall|w: Seq<char>| !number_like(w) implies frequency(next, w) == frequency(
                    prev,
                    w,
                ) && degree(next, w) == degree(prev, w) by {
                    lemma_count_bounded(ps, w);
                }
                seen += p.len();
            } else {
                let mut j: usize = 0;
                while j < p.len()
                    invariant
                        0 <= j <= p.len(),
                        ps == p.deep_view(),
                        e == effective_len(ps),
                        e > 0,
                        e <= ps.len(),
                        doc == phrases.deep_view(),
                        total == total_tokens(doc),
                        total <= usize::MAX,
                        total_tokens(prev) + ps.len() <= total,
                        seen == total_tokens(prev) + j,
                        forall|k: int|
                            0 <= k < tab.len() ==> tallied(
                                #[trigger] tab[k],
                                prev,
                                ps.take(j as int),
                                (e - 1) as nat,
                                seen as int,
                                total,
                            ),
                        forall|k1: int, k2: int|
                            0 <= k1 < k2 < tab.len() ==> #[trigger] tab[k1].word@ != #[trigger] tab[k2].word@,
                        forall|w: Seq<char>|
                            !number_like(w) && #[trigger] frequency(prev, w) + count_in(
                                ps.take(j as int),
                                w,
                            ) > 0 ==> exists|k: int| 0 <= k < tab.len() && tab[k].word@ == w,
                    decreases p.len() - j,
                {
                    let ghost before = ps.take(j as int);
                    let ghost after = ps.take(j + 1);
                    assert(after.drop_last() =~= before);
                    assert(after.last() == ps[j as int]);
                    assert forall|w: Seq<char>| #[trigger] count_in(after, w) == count_in(before, w) + if ps[j as int] == w {
                        1nat
                    } else {
                        0nat
                    } by {}
                    let t = &p[j];
                    assert(ps[j as int] == t@);
                    if !self.is_number(t.as_str()) {
                        proof {
                            lemma_count_bounded(ps, t@);
                        }
                        match find_word(&tab, t) {
                            Some(k) => {
                                let ghost old_tab = tab@;
                                let f = tab[k].freq;
                                let d = tab[k].degree;
                                let ghost c = count_in(before, t@);
                                assert(f + 1 <= total);
                                assert(d + (e - 1) <= (f + 1) * total) by (nonlinear_arith)
                                    requires
                                        d <= f * total,
                                        e <= total,
                                        e >= 1,
                                ;
                                assert((f + 1) * total <= total * total) by (nonlinear_arith)
                                    requires
                                        f + 1 <= total,
                                ;
                                assert(total * total <= 0xffff_ffff_ffff_ffffu64 as int * 0xffff_ffff_ffff_ffffu64 as int) by (nonlinear_arith)
                                    requires
                                        total <= 0xffff_ffff_ffff_ffffu64 as int,
                                ;
                                let ghost em1: nat = (e - 1) as nat;
                                assert((c + 1) * em1 == c * em1 + em1) by (nonlinear_arith);
                                let w = tab[k].word.clone();
                                tab.set(k, WordScore { word: w, freq: f + 1, degree: d + (e - 1) as u128 });
                                assert(tab@[k as int].word@ == t@);
                                assert forall|m: int| 0 <= m < tab.len() && m != k implies old_tab[m].word@ != t@ && #[trigger] tab@[m] == old_tab[m] by {
                                    if m < k {
                                        assert(old_tab[m].word@ != old_tab[k as int].word@);
                                    } else {
                                        assert(old_tab[k as int].word@ != old_tab[m].word@);
                                    }
                                }
                                assert forall|m: int| 0 <= m < tab.len() implies tallied(#[trigger] tab[m], prev, after, em1, seen + 1, total) by {
                                    if m != k {
                                        assert(tab@[m] == old_tab[m]);
                                    }
                                }
                                assert forall|w: Seq<char>|
                                    !number_like(w) && #[trigger] frequency(prev, w) + count_in(after, w) > 0
                                    implies exists|m: int| 0 <= m < tab.len() && tab[m].word@ == w by {
                                    if w == t@ {
                                        assert(tab[k as int].word@ == w);
                                    } else {
                                        assert(frequency(prev, w) + count_in(before, w) > 0);
                                        let m = choose|m: int| 0 <= m < old_tab.len() && old_tab[m].word@ == w;
                                        assert(tab[m].word@ == w);
                                    }
                                }
                            },
                            None => {
                                let ghost old_tab = tab@;
                                proof {
                                    if frequency(prev, t@) + count_in(before, t@) > 0 {
                                        let m = choose|m: int| 0 <= m < old_tab.len() && old_tab[m].word@ == t@;
                                        assert(false);
                                    }
                                    lemma_degree_zero(prev, t@);
                                }
                                assert(seen + 1 <= total);
                                tab.push(WordScore { word: t.clone(), freq: 1, degree: (e - 1) as u128 });
                                let ghost em1: nat = (e - 1) as nat;
                                assert(0 * em1 == 0) by (nonlinear_arith);
                                assert(1 * em1 == em1) by (nonlinear_arith);
                                assert(1 * total == total) by (nonlinear_arith);
                                assert(count_in(after, t@) == 1);
                                assert forall|m: int| 0 <= m < tab.len() implies tallied(#[trigger] tab[m], prev, after, em1, seen + 1, total) by {
                                    if m < old_tab.len() {
                                        assert(tab@[m] == old_tab[m]);
                                    }
                                }
                                assert forall|w: Seq<char>|
                                    !number_like(w) && #[trigger] frequency(prev, w) + count_in(after, w) > 0
                                    implies exists|m: int| 0 <= m < tab.len() && tab[m].word@ == w by {
                                    if w == t@ {
                                        assert(tab[old_tab.len() as int].word@ == w);
                                    } else {
                                        assert(frequency(prev, w) + count_in(before, w) > 0);
                                        let m = choose|m: int| 0 <= m < old_tab.len() && old_tab[m].word@ == w;
                                        assert(tab[m].word@ == w);
                                    }
                                }
                            },
                        }
                    } else {
                        let ghost em1: nat = (e - 1) as nat;
                        assert forall|m: int| 0 <= m < tab.len() implies tallied(#[trigger] tab[m], prev, after, em1, seen + 1, total) by {
                            assert(ps[j as int] != tab[m].word@);
                        }
                        assert forall|w: Seq<char>|
                            !number_like(w) && #[trigger] frequency(prev, w) + count_in(after, w) > 0
                            implies exists|m: int| 0 <= m < tab.len() && tab[m].word@ == w by {
                            assert(frequency(prev, w) + count_in(before, w) > 0);
                        }
                    }
                    seen += 1;
                    j += 1;
                }
                assert(ps.take(j as int) =~= ps);
                assert forall|k: int| 0 <= k < tab.len() implies #[trigger] tab[k].freq <= seen
                    && tab[k].degree <= tab[k].freq * total by {
                    assert(!number_like(tab[k].word@));
                }
                assert forall|w: Seq<char>| !number_like(w) implies frequency(next, w) == frequency(
                    prev,
                    w,
                ) + count_in(ps, w) && degree(next, w) == degree(prev, w) + count_in(ps, w) * (e
                    - 1) as nat by {}
            }
            i += 1;
        }
        assert(doc.take(i as int) =~= doc);
        tab
    }

    /// The tallies of the words of phrase `i` of `phrases`, taken from
    /// their word table.
    fn phrase_terms(&self, phrases: &Vec<Vec<String>>, i: usize, tab: &Vec<WordScore>) -> (r: Vec<Term>)
        requires
            i < phrases.len(),
            word_table(tab@, phrases.deep_view()),
        ensures
            terms_view(r@) == terms_of(phrases.deep_view(), phrases.deep_view()[i as int]),
    {
        let ghost doc = phrases.deep_view();
        let p = &phrases[i];
        let ghost ps = p.deep_view();
        assert(ps == doc[i as int]);
        let mut out: Vec<Term> = Vec::new();
        let mut j: usize = 0;
        assert(terms_view(out@) =~= terms_of(doc, ps.take(0)));
        while j < p.len()
            invariant
                0 <= j <= p.len(),
                i < phrases.len(),
                doc == phrases.deep_view(),
                ps == p.deep_view(),
                ps == doc[i as int],
                word_table(tab@, doc),
                terms_view(out@) == terms_of(doc, ps.take(j as int)),
            decreases p.len() - j,
        {
            let ghost before = ps.take(j as int);
            assert(ps.take(j + 1).drop_last() =~= before);
            assert(ps.take(j + 1).last() == ps[j as int]);
            let t = &p[j];
            assert(ps[j as int] == t@);
            let ghost prev = terms_view(out@);
            if !self.is_number(t.as_str()) {
                proof {
                    lemma_count_member(ps, j as int);
                    lemma_frequency_member(doc, i as int, t@);
                }
                match find_word(tab, t) {
                    Some(k) => {
                        out.push(Term { freq: tab[k].freq, degree: tab[k].degree });
                        assert(terms_view(out@) =~= prev + seq![(frequency(doc, t@), degree(doc, t@))]);
                    },
                    None => {
                        assert(false);
                    },
                }
            } else {
                assert(prev + seq![] =~= prev);
            }
            j += 1;
        }
        assert(ps.take(j as int) =~= ps);
        out
    }

    /// The candidate table of `phrases`: each distinct key once, with the
    /// tallies of its words; a repeated key keeps the tallies of its last
    /// phrase.
    pub fn candidate_keywords(&self, phrases: &Vec<Vec<String>>) -> (r: Vec<Candidate>)
        requires
            total_tokens(phrases.deep_view()) <= usize::MAX,
        ensures
            candidate_table(r@, candidate_map(phrases.deep_view(), phrases.deep_view().len() as int)),
    {
        let ghost doc = phrases.deep_view();
        let tab = self.word_scores(phrases);
        let mut out: Vec<Candidate> = Vec::new();
        let mut i: usize = 0;
        while i < phrases.len()
            invariant
                0 <= i <= phrases.len(),
                doc == phrases.deep_view(),
                word_table(tab@, doc),
                candidate_table(out@, candidate_map(doc, i as int)),
            decreases phrases.len() - i,
        {
            let ghost m0 = candidate_map(doc, i as int);
            let ghost old_out = out@;
            let key = join_phrase(&phrases[i]);
            let terms = self.phrase_terms(phrases, i, &tab);
            let ghost m1 = candidate_map(doc, i + 1);
            assert(m1 == m0.insert(key@, terms_view(terms@)));
            match find_keyword(&out, &key) {
                Some(k) => {
                    out.set(k, Candidate { keyword: key, terms });
                    assert forall|m: int| 0 <= m < out.len() && m != k implies #[trigger] out@[m] == old_out[m]
                        && old_out[m].keyword@ != out@[k as int].keyword@ by {
                        if m < k {
                            assert(old_out[m].keyword@ != old_out[k as int].keyword@);
                        } else {
                            assert(old_out[k as int].keyword@ != old_out[m].keyword@);
                        }
                    }
                    assert forall|key2: Seq<char>| #[trigger] m1.contains_key(key2) implies exists|q: int|
                        0 <= q < out.len() && out@[q].keyword@ == key2 by {
                        if key2 != out@[k as int].keyword@ {
                            let q = choose|q: int| 0 <= q < old_out.len() && old_out[q].keyword@ == key2;
                            assert(out@[q].keyword@ == key2);
                        }
                    }
                },
                None => {
                    out.push(Candidate { keyword: key, terms });
                    assert forall|m: int| 0 <= m < old_out.len() implies #[trigger] out@[m] == old_out[m] by {}
                    assert forall|key2: Seq<char>| #[trigger] m1.contains_key(key2) implies exists|q: int|
                        0 <= q < out.len() && out@[q].keyword@ == key2 by {
                        if key2 != out@[old_out.len() as int].keyword@ {
                            let q = choose|q: int| 0 <= q < old_out.len() && old_out[q].keyword@ == key2;
                            assert(out@[q].keyword@ == key2);
                        }
                    }
                },
            }
            i += 1;
        }
        out
    }

    /// The number of tokens of all `phrases`, if it fits in a `usize`.
    fn token_count(phrases: &Vec<Vec<String>>) -> (r: Option<usize>)
        ensures
            match r {
                Some(n) => n == total_tokens(phrases.deep_view()),
                None => total_tokens(phrases.deep_view()) > usize::MAX,
            },
    {
        let ghost doc = phrases.deep_view();
        let mut n: usize = 0;
        let mut i: usize = 0;
        while i < phrases.len()
            invariant
                0 <= i <= phrases.len(),
                doc == phrases.deep_view(),
                n == total_tokens(doc.take(i as int)),
            decreases phrases.len() - i,
        {
            assert(doc.take(i + 1).drop_last() =~= doc.take(i as int));
            if phrases[i].len() > usize::MAX - n {
                proof {
                    lemma_total_prefix(doc, i as int);
                }
                return None;
            }
            n += phrases[i].len();
            i += 1;
        }
        assert(doc.take(i as int) =~= doc);
        Some(n)
    }

    /// The candidate keywords of `text`, each with the tallies of its words,
    /// or `None` where the text has more tokens than a `usize` counts.
    pub fn candidates(&self, text: &str) -> (r: Option<Vec<Candidate>>)
        ensures
            match r {
                Some(c) => total_tokens(document(self.stop_set(), text@)) <= usize::MAX
                    && candidate_table(
                    c@,
                    candidate_map(
                        document(self.stop_set(), text@),
                        document(self.stop_set(), text@).len() as int,
                    ),
                ),
                None => total_tokens(document(self.stop_set(), text@)) > usize::MAX,
            },
    {
        let phrases = self.phrases(text);
        match Self::token_count(&phrases) {
            Some(_) => Some(self.candidate_keywords(&phrases)),
            None => None,
        }
    }
}

} // verus!
