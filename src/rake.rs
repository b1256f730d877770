//! The stopword set, the extractor's configuration, and the cutting of a
//! text into phrases.
use vstd::prelude::*;
use crate::text::{compile, lower_of, lowercase, number_like, punct_pieces, split_words, words_of};

verus! {

/// A set of lower-case stopwords.
pub struct StopWords {
    words: Vec<String>,
}

impl View for StopWords {
    type V = Set<Seq<char>>;

    closed spec fn view(&self) -> Set<Seq<char>> {
        self.words.deep_view().to_set()
    }
}

impl StopWords {
    /// A set that holds the given words.
    pub fn from_words(words: Vec<String>) -> (r: StopWords)
        ensures
            r@ == words.deep_view().to_set(),
    {
        StopWords { words }
    }

    /// Whether `w` is in the set.
    pub fn contains(&self, w: &String) -> (r: bool)
        ensures
            r == self@.contains(w@),
    {
        let mut i: usize = 0;
        while i < self.words.len()
            invariant
                0 <= i <= self.words.len(),
                forall|k: int| 0 <= k < i ==> self.words.deep_view()[k] != w@,
            decreases self.words.len() - i,
        {
            if self.words[i] == *w {
                assert(self.words.deep_view()[i as int] == w@);
                return true;
            }
            i += 1;
        }
        false
    }
}

/// Whether a token is a stopword: its lower-case form is in the set.
pub open spec fn is_stopword(stop: Set<Seq<char>>, w: Seq<char>) -> bool {
    stop.contains(lower_of(w))
}

/// The phrases that a non-empty run of words closes: none if it is empty.
pub open spec fn flush(buf: Seq<Seq<char>>) -> Seq<Seq<Seq<char>>> {
    if buf.len() > 0 {
        seq![buf]
    } else {
        seq![]
    }
}

/// The phrases of a piece of text, given its words: `buf` is the run of
/// non-stopwords gathered so far; a stopword closes it, and the end of the
/// piece closes the last one.
pub open spec fn runs(stop: Set<Seq<char>>, words: Seq<Seq<char>>, buf: Seq<Seq<char>>) -> Seq<
    Seq<Seq<char>>,
>
    decreases words.len(),
{
    if words.len() == 0 {
        flush(buf)
    } else if is_stopword(stop, words[0]) {
        flush(buf) + runs(stop, words.drop_first(), seq![])
    } else {
        runs(stop, words.drop_first(), buf.push(words[0]))
    }
}

/// The phrases of a text cut into pieces, in order; empty pieces give none.
pub open spec fn phrases_of(stop: Set<Seq<char>>, pieces: Seq<Seq<char>>) -> Seq<Seq<Seq<char>>>
    decreases pieces.len(),
{
    if pieces.len() == 0 {
        seq![]
    } else {
        let last = pieces.last();
        phrases_of(stop, pieces.drop_last()) + if last.len() > 0 {
            runs(stop, words_of(last), seq![])
        } else {
            seq![]
        }
    }
}

/// The phrases of a text: its pieces between punctuation, each cut at its
/// stopwords into runs of words.
pub open spec fn document(stop: Set<Seq<char>>, text: Seq<char>) -> Seq<Seq<Seq<char>>> {
    phrases_of(stop, punct_pieces(text))
}

/// The keyword extractor: a stopword set and the two fixed patterns that
/// tell numbers and punctuation.
pub struct Rake {
    stop_words: StopWords,
    num_re: regex::Regex,
    punc_re: regex::Regex,
}

impl Rake {
    /// The stopword set of this extractor.
    pub closed spec fn stop_set(&self) -> Set<Seq<char>> {
        self.stop_words@
    }

    /// An extractor that uses `stop_words`.
    pub fn new(stop_words: StopWords) -> (r: Rake)
        ensures
            r.stop_set() == stop_words@,
    {
        proof {
            reveal_strlit("-?\\p{N}+[./\u{066B},']?\\p{N}*");
            reveal_strlit("[^\\P{P}-]|\\s+-\\s+");
        }
        Rake {
            stop_words,
            num_re: compile("-?\\p{N}+[./\u{066B},']?\\p{N}*"),
            punc_re: compile("[^\\P{P}-]|\\s+-\\s+"),
        }
    }

    /// Relies on `regex::Regex::is_match`, on the number pattern that `new`
    /// compiled: whether a number occurs in `s`.
    #[verifier::external_body]
    pub(crate) fn is_number(&self, s: &str) -> (r: bool)
        ensures
            r == number_like(s@),
    {
        self.num_re.is_match(s)
    }

    /// Relies on `regex::Regex::split`, on the punctuation pattern that `new`
    /// compiled: the pieces of `text` between its matches, in order, empty
    /// ones included.
    #[verifier::external_body]
    fn split_punct(&self, text: &str) -> (r: Vec<String>)
        ensures
            r.deep_view() == punct_pieces(text@),
    {
        self.punc_re.split(text).map(|p| p.to_string()).collect()
    }

    /// Whether `w` is a stopword of this extractor.
    pub fn is_stopword(&self, w: &str) -> (r: bool)
        ensures
            r == is_stopword(self.stop_set(), w@),
    {
        let l = lowercase(w);
        self.stop_words.contains(&l)
    }

    /// Appends to `out` the phrases of one piece of text.
    fn cut_piece(&self, piece: &str, out: &mut Vec<Vec<String>>)
        ensures
            final(out).deep_view() == old(out).deep_view() + runs(
                self.stop_set(),
                words_of(piece@),
                seq![],
            ),
    {
        let ghost stop = self.stop_set();
        let ghost out0 = out.deep_view();
        let words = split_words(piece);
        let ghost ws = words.deep_view();
        let mut buf: Vec<String> = Vec::new();
        let mut j: usize = 0;
        assert(ws.skip(0) =~= ws);
        assert(buf.deep_view() =~= Seq::<Seq<char>>::empty());
        while j < words.len()
            invariant
                0 <= j <= words.len(),
                ws == words.deep_view(),
                ws == words_of(piece@),
                out.deep_view() + runs(stop, ws.skip(j as int), buf.deep_view()) == out0 + runs(
                    stop,
                    ws,
                    seq![],
                ),
                stop == self.stop_set(),
            decreases words.len() - j,
        {
            let ghost rest = ws.skip(j as int);
            assert(rest.drop_first() =~= ws.skip(j + 1));
            assert(rest[0] == ws[j as int]);
            let ghost before = out.deep_view();
            if self.is_stopword(words[j].as_str()) {
                if buf.len() > 0 {
                    let ghost b = buf.deep_view();
                    out.push(buf);
                    assert(out.deep_view() =~= before.push(b));
                    buf = Vec::new();
                    assert(buf.deep_view() =~= Seq::<Seq<char>>::empty());
                    assert(before + (seq![b] + runs(stop, ws.skip(j + 1), seq![])) =~= before.push(
                        b,
                    ) + runs(stop, ws.skip(j + 1), seq![]));
                } else {
                    assert(buf.deep_view() =~= Seq::<Seq<char>>::empty());
                    assert(seq![] + runs(stop, ws.skip(j + 1), seq![]) =~= runs(
                        stop,
                        ws.skip(j + 1),
                        seq![],
                    ));
                }
            } else {
                let ghost b = buf.deep_view();
                buf.push(words[j].clone());
                assert(buf.deep_view() =~= b.push(ws[j as int]));
            }
            j += 1;
        }
        assert(ws.skip(j as int) =~= Seq::<Seq<char>>::empty());
        let ghost before = out.deep_view();
        if buf.len() > 0 {
            let ghost b = buf.deep_view();
            out.push(buf);
            assert(out.deep_view() =~= before.push(b));
            assert(before + seq![b] =~= before.push(b));
        } else {
            assert(before + seq![] =~= before);
        }
    }

    /// The phrases of `text`: runs of non-stopword tokens, in their original
    /// case and order, cut at punctuation and at stopwords.
    pub fn phrases(&self, text: &str) -> (r: Vec<Vec<String>>)
        ensures
            r.deep_view() == document(self.stop_set(), text@),
    {
        let ghost stop = self.stop_set();
        let pieces = self.split_punct(text);
        let ghost ps = pieces.deep_view();
        let mut out: Vec<Vec<String>> = Vec::new();
        let mut i: usize = 0;
        assert(out.deep_view() =~= phrases_of(stop, ps.take(0)));
        while i < pieces.len()
            invariant
                0 <= i <= pieces.len(),
                ps == pieces.deep_view(),
                ps == punct_pieces(text@),
                out.deep_view() == phrases_of(stop, ps.take(i as int)),
                stop == self.stop_set(),
            decreases pieces.len() - i,
        {
            assert(ps.take(i + 1).drop_last() =~= ps.take(i as int));
            assert(ps.take(i + 1).last() == ps[i as int]);
            let ghost before = out.deep_view();
            if !pieces[i].as_str().is_empty() {
                self.cut_piece(pieces[i].as_str(), &mut out);
            } else {
                assert(before + seq![] =~= before);
            }
            i += 1;
        }
        assert(ps.take(i as int) =~= ps);
        out
    }
}

} // verus!
