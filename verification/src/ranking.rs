//! Relevance ranking: a referee scores one point for each keyword that
//! stands in the content, and the best few referees are picked.

use crate::text::{
    bytes_le, contains_text, lemma_lex_le_antisymmetric, lemma_lex_le_reflexive,
    lemma_lex_le_total, lemma_lex_le_transitive, lex_le, text_contains,
};
use vstd::prelude::*;
use vstd::utf8::encode_utf8;

verus! {

/// How many referees are suggested for a submission, at most.
pub const PANEL_SIZE: usize = 3;

/// A referee and the keywords of their interests. A keyword may stand more
/// than once, and the keywords keep the order in which they came.
#[derive(Clone, Debug, PartialEq, Eq)]
pub struct Reviewer {
    pub name: String,
    pub keywords: Vec<String>,
}

/// What the record of a referee holds, as plain text.
pub struct ReviewerView {
    pub name: Seq<char>,
    pub keywords: Seq<Seq<char>>,
}

impl DeepView for Reviewer {
    type V = ReviewerView;

    open spec fn deep_view(&self) -> ReviewerView {
        ReviewerView { name: self.name@, keywords: self.keywords.deep_view() }
    }
}

impl View for Reviewer {
    type V = ReviewerView;

    open spec fn view(&self) -> ReviewerView {
        self.deep_view()
    }
}

/// How many of `keywords` stand in `data`; one that is listed twice counts
/// twice.
pub open spec fn match_count(data: Seq<char>, keywords: Seq<Seq<char>>) -> nat
    decreases keywords.len(),
{
    if keywords.len() == 0 {
        0
    } else {
        match_count(data, keywords.drop_last()) + if text_contains(data, keywords.last()) {
            1nat
        } else {
            0nat
        }
    }
}

/// The score of a list of keywords on `data`: the count of those that stand
/// in it, cut to 32 bits.
pub open spec fn keyword_score(data: Seq<char>, keywords: Seq<Seq<char>>) -> u32 {
    match_count(data, keywords) as u32
}

/// No more keywords can match than there are.
pub proof fn lemma_match_count_bounded(data: Seq<char>, keywords: Seq<Seq<char>>)
    ensures
        match_count(data, keywords) <= keywords.len(),
    decreases keywords.len(),
{
    if keywords.len() > 0 {
        lemma_match_count_bounded(data, keywords.drop_last());
    }
}

/// A score never exceeds the number of keywords that it was counted over.
pub proof fn lemma_score_bounded(data: Seq<char>, keywords: Seq<Seq<char>>)
    ensures
        keyword_score(data, keywords) <= keywords.len(),
{
    lemma_match_count_bounded(data, keywords);
}

/// The key by which referees are ranked: the score, then the bytes of the
/// name.
pub type RankKey = (u32, Seq<u8>);

/// The order of the keys: by score, and among equal scores by name.
pub open spec fn key_le(a: RankKey, b: RankKey) -> bool {
    a.0 < b.0 || (a.0 == b.0 && lex_le(a.1, b.1))
}

pub proof fn lemma_key_le_reflexive(a: RankKey)
    ensures
        key_le(a, a),
{
    lemma_lex_le_reflexive(a.1);
}

pub proof fn lemma_key_le_antisymmetric(a: RankKey, b: RankKey)
    requires
        key_le(a, b),
        key_le(b, a),
    ensures
        a == b,
{
    lemma_lex_le_antisymmetric(a.1, b.1);
}

pub proof fn lemma_key_le_total(a: RankKey, b: RankKey)
    ensures
        key_le(a, b) || key_le(b, a),
{
    lemma_lex_le_total(a.1, b.1);
}

pub proof fn lemma_key_le_transitive(a: RankKey, b: RankKey, c: RankKey)
    requires
        key_le(a, b),
        key_le(b, c),
    ensures
        key_le(a, c),
{
    if a.0 == b.0 && b.0 == c.0 {
        lemma_lex_le_transitive(a.1, b.1, c.1);
    }
}

/// Position `e` is one of `picked`.
pub open spec fn is_picked(picked: Seq<usize>, e: int) -> bool {
    exists|j: int| 0 <= j < picked.len() && picked[j] == e
}

/// `picked` lists the positions of the `limit` greatest among the first `n`
/// of `keys`, the greatest first: all of them where there are no more than
/// `limit`, and else `limit` positions such that no key left out is greater
/// than one that was picked.
pub open spec fn is_top_of_prefix(keys: Seq<RankKey>, n: int, limit: int, picked: Seq<usize>) -> bool {
    &&& 0 <= n <= keys.len()
    &&& picked.len() == if n < limit { n } else { limit }
    &&& forall|j: int| 0 <= j < picked.len() ==> 0 <= #[trigger] picked[j] < n
    &&& forall|i: int, j: int| 0 <= i < j < picked.len() ==> picked[i] != picked[j]
    &&& forall|i: int, j: int|
        0 <= i < j < picked.len() ==> key_le(keys[picked[j] as int], keys[picked[i] as int])
    &&& forall|e: int, j: int|
        #![trigger is_picked(picked, e), picked[j]]
        0 <= e < n && !is_picked(picked, e) && 0 <= j < picked.len() ==> key_le(
            keys[e],
            keys[picked[j] as int],
        )
    &&& n <= limit ==> forall|e: int| 0 <= e < n ==> #[trigger] is_picked(picked, e)
}

/// `picked` lists the positions of the `limit` greatest of `keys`, the
/// greatest first.
pub open spec fn is_top_selection(keys: Seq<RankKey>, limit: int, picked: Seq<usize>) -> bool {
    is_top_of_prefix(keys, keys.len() as int, limit, picked)
}

/// The keys of the referees on `data`, in their order.
pub open spec fn rank_keys(data: Seq<char>, reviewers: Seq<ReviewerView>) -> Seq<RankKey> {
    Seq::new(
        reviewers.len(),
        |i: int| (keyword_score(data, reviewers[i].keywords), encode_utf8(reviewers[i].name)),
    )
}

/// The referee at position `i`, by name, with their score on `data`.
pub open spec fn scored_entry(data: Seq<char>, reviewers: Seq<ReviewerView>, i: int) -> (
    Seq<char>,
    u32,
) {
    (reviewers[i].name, keyword_score(data, reviewers[i].keywords))
}

/// `ranking` names, with their scores, the `limit` best of the referees on
/// `data`, the best first.
pub open spec fn is_ranking(
    data: Seq<char>,
    reviewers: Seq<ReviewerView>,
    limit: int,
    ranking: Seq<(Seq<char>, u32)>,
) -> bool {
    exists|picked: Seq<usize>|
        {
            &&& is_top_selection(rank_keys(data, reviewers), limit, picked)
            &&& #[trigger] picked.len() == ranking.len()
            &&& forall|j: int|
                0 <= j < ranking.len() ==> #[trigger] ranking[j] == scored_entry(
                    data,
                    reviewers,
                    picked[j] as int,
                )
        }
}

/// The score of `keywords` on `data`.
pub fn score_keywords(data: &str, keywords: &Vec<String>) -> (score: u32)
    ensures
        score == keyword_score(data@, keywords.deep_view()),
{
    let n: usize = keywords.len();
    let ghost all = keywords.deep_view();
    let mut count: usize = 0;
    let mut i: usize = 0;
    while i < n
        invariant
            n == keywords@.len(),
            all == keywords.deep_view(),
            i <= n,
            count <= i,
            count == match_count(data@, all.take(i as int)),
        decreases n - i,
    {
        proof {
            assert(all.take(i + 1).drop_last() =~= all.take(i as int));
            assert(all.take(i + 1).last() == keywords@[i as int]@);
        }
        if contains_text(data, keywords[i].as_str()) {
            count += 1;
        }
        i += 1;
    }
    proof {
        assert(all.take(n as int) =~= all);
    }
    #[verifier::truncate]
    (count as u32)
}

/// Whether the key of a referee named `name_a` with score `score_a` is no
/// greater than that of one named `name_b` with score `score_b`.
fn rank_le(score_a: u32, name_a: &str, score_b: u32, name_b: &str) -> (le: bool)
    ensures
        le == key_le((score_a, encode_utf8(name_a@)), (score_b, encode_utf8(name_b@))),
{
    if score_a != score_b {
        score_a < score_b
    } else {
        bytes_le(name_a.as_bytes(), name_b.as_bytes())
    }
}

/// The scores and names of the referees are what `keys` holds.
spec fn keys_match(keys: Seq<RankKey>, reviewers: Seq<Reviewer>, scores: Seq<u32>) -> bool {
    &&& keys.len() == reviewers.len()
    &&& keys.len() == scores.len()
    &&& forall|i: int|
        0 <= i < keys.len() ==> #[trigger] keys[i] == (scores[i], encode_utf8(reviewers[i].name@))
}

/// Picking position `n` into `picked` at place `p`, and then dropping the
/// last pick where that makes one too many, gives the best of one key more.
proof fn lemma_pick_step(keys: Seq<RankKey>, n: int, limit: int, picked: Seq<usize>, p: int)
    requires
        0 <= limit,
        n < keys.len(),
        n <= usize::MAX,
        is_top_of_prefix(keys, n, limit, picked),
        0 <= p <= picked.len(),
        forall|q: int| 0 <= q < p ==> key_le(keys[n], keys[#[trigger] picked[q] as int]),
        p < picked.len() ==> !key_le(keys[n], keys[picked[p] as int]),
    ensures
        ({
            let grown = picked.insert(p, n as usize);
            is_top_of_prefix(
                keys,
                n + 1,
                limit,
                if grown.len() > limit {
                    grown.take(limit)
                } else {
                    grown
                },
            )
        }),
{
    let grown = picked.insert(p, n as usize);
    let kept = if grown.len() > limit {
        grown.take(limit)
    } else {
        grown
    };
    if p < picked.len() {
        lemma_key_le_total(keys[n], keys[picked[p] as int]);
    }
    // what comes behind the new pick is no greater than it
    assert forall|q: int| p <= q < picked.len() implies key_le(
        keys[#[trigger] picked[q] as int],
        keys[n],
    ) by {
        if q > p {
            lemma_key_le_transitive(keys[picked[q] as int], keys[picked[p] as int], keys[n]);
        }
    }
    // the picks are the old picks and the new one
    assert forall|e: int| is_picked(picked, e) implies is_picked(grown, e) by {
        let j = choose|j: int| 0 <= j < picked.len() && picked[j] == e;
        if j < p {
            assert(grown[j] == e);
        } else {
            assert(grown[j + 1] == e);
        }
    }
    assert(grown[p] == n);
    assert(is_picked(grown, n));
    assert forall|e: int| is_picked(grown, e) && e != n implies is_picked(picked, e) by {
        let j = choose|j: int| 0 <= j < grown.len() && grown[j] == e;
        if j < p {
            assert(picked[j] == e);
        } else {
            assert(picked[j - 1] == e);
        }
    }
    if grown.len() > limit {
        let last = grown[limit] as int;
        assert forall|e: int| is_picked(grown, e) && e != last implies is_picked(kept, e) by {
            let j = choose|j: int| 0 <= j < grown.len() && grown[j] == e;
            assert(kept[j] == e);
        }
        assert forall|e: int, j: int|
            #![trigger is_picked(kept, e), kept[j]]
            0 <= e < n + 1 && !is_picked(kept, e) && 0 <= j < kept.len() implies key_le(
            keys[e],
            keys[kept[j] as int],
        ) by {
            if e == last {
                assert(key_le(keys[grown[limit] as int], keys[grown[j] as int]));
            } else {
                assert(!is_picked(picked, e));
                if j == p {
                    assert(key_le(keys[e], keys[picked[p] as int]));
                    lemma_key_le_transitive(keys[e], keys[picked[p] as int], keys[n]);
                } else if j < p {
                    assert(kept[j] == picked[j]);
                } else {
                    assert(kept[j] == picked[j - 1]);
                }
            }
        }
    } else {
        assert forall|e: int| 0 <= e < n + 1 implies #[trigger] is_picked(kept, e) by {
            if e < n {
                assert(is_picked(picked, e));
            }
        }
    }
}

/// The place at which position `new` goes among `picked`: behind every pick
/// whose key is no smaller.
fn insertion_place(
    reviewers: &Vec<Reviewer>,
    scores: &Vec<u32>,
    picked: &Vec<usize>,
    new: usize,
    Ghost(keys): Ghost<Seq<RankKey>>,
) -> (place: usize)
    requires
        keys_match(keys, reviewers@, scores@),
        new < keys.len(),
        forall|j: int| 0 <= j < picked@.len() ==> #[trigger] picked@[j] < keys.len(),
    ensures
        place <= picked@.len(),
        forall|q: int| 0 <= q < place ==> key_le(keys[new as int], keys[#[trigger] picked@[q] as int]),
        place < picked@.len() ==> !key_le(keys[new as int], keys[picked@[place as int] as int]),
{
    let len: usize = picked.len();
    let mut place: usize = 0;
    while place < len
        invariant
            len == picked@.len(),
            place <= len,
            keys_match(keys, reviewers@, scores@),
            new < keys.len(),
            forall|j: int| 0 <= j < picked@.len() ==> #[trigger] picked@[j] < keys.len(),
            forall|q: int|
                0 <= q < place ==> key_le(keys[new as int], keys[#[trigger] picked@[q] as int]),
        decreases len - place,
    {
        let other: usize = picked[place];
        assert(keys[new as int] == (scores@[new as int], encode_utf8(reviewers@[new as int].name@)));
        assert(keys[other as int] == (
            scores@[other as int],
            encode_utf8(reviewers@[other as int].name@),
        ));
        if !rank_le(
            scores[new],
            reviewers[new].name.as_str(),
            scores[other],
            reviewers[other].name.as_str(),
        ) {
            return place;
        }
        place += 1;
    }
    place
}

/// The positions of the `limit` best of the referees, the best first.
fn pick_top(
    reviewers: &Vec<Reviewer>,
    scores: &Vec<u32>,
    limit: usize,
    Ghost(keys): Ghost<Seq<RankKey>>,
) -> (picked: Vec<usize>)
    requires
        keys_match(keys, reviewers@, scores@),
    ensures
        is_top_selection(keys, limit as int, picked@),
{
    let n: usize = reviewers.len();
    let mut picked: Vec<usize> = Vec::new();
    let mut i: usize = 0;
    while i < n
        invariant
            n == keys.len(),
            i <= n,
            keys_match(keys, reviewers@, scores@),
            is_top_of_prefix(keys, i as int, limit as int, picked@),
        decreases n - i,
    {
        let place = insertion_place(reviewers, scores, &picked, i, Ghost(keys));
        proof {
            lemma_pick_step(keys, i as int, limit as int, picked@, place as int);
        }
        let ghost grown = picked@.insert(place as int, i);
        picked.insert(place, i);
        if picked.len() > limit {
            picked.pop();
            proof {
                assert(picked@ =~= grown.take(limit as int));
            }
        }
        i += 1;
    }
    picked
}

/// The `limit` best of the referees on `data`, each with their score, the
/// best first. Among equal scores the greater name, byte by byte, is the
/// better.
pub fn rank(data: &str, reviewers: &Vec<Reviewer>, limit: usize) -> (ranking: Vec<(String, u32)>)
    ensures
        is_ranking(data@, reviewers.deep_view(), limit as int, ranking.deep_view()),
        ranking@.len() <= limit,
        ranking@.len() <= reviewers@.len(),
{
    let n: usize = reviewers.len();
    let ghost keys = rank_keys(data@, reviewers.deep_view());
    let mut scores: Vec<u32> = Vec::new();
    let mut i: usize = 0;
    while i < n
        invariant
            n == reviewers@.len(),
            i <= n,
            scores@.len() == i,
            keys == rank_keys(data@, reviewers.deep_view()),
            forall|t: int| 0 <= t < i ==> #[trigger] scores@[t] == keys[t].0,
        decreases n - i,
    {
        let score = score_keywords(data, &reviewers[i].keywords);
        scores.push(score);
        i += 1;
    }
    let picked = pick_top(reviewers, &scores, limit, Ghost(keys));
    let count: usize = picked.len();
    let mut ranking: Vec<(String, u32)> = Vec::new();
    let mut j: usize = 0;
    while j < count
        invariant
            count == picked@.len(),
            j <= count,
            ranking@.len() == j,
            n == reviewers@.len(),
            scores@.len() == n,
            keys == rank_keys(data@, reviewers.deep_view()),
            forall|t: int| 0 <= t < n ==> #[trigger] scores@[t] == keys[t].0,
            is_top_selection(keys, limit as int, picked@),
            forall|t: int|
                0 <= t < j ==> #[trigger] ranking.deep_view()[t] == scored_entry(
                    data@,
                    reviewers.deep_view(),
                    picked@[t] as int,
                ),
        decreases count - j,
    {
        let at: usize = picked[j];
        let name = reviewers[at].name.clone();
        let ghost before = ranking.deep_view();
        ranking.push((name, scores[at]));
        proof {
            assert forall|t: int| 0 <= t < j + 1 implies #[trigger] ranking.deep_view()[t]
                == scored_entry(data@, reviewers.deep_view(), picked@[t] as int) by {
                if t < j {
                    assert(ranking.deep_view()[t] == before[t]);
                } else {
                    assert(scores@[at as int] == keys[at as int].0);
                }
            }
        }
        j += 1;
    }
    proof {
        assert(picked@.len() == ranking.deep_view().len());
    }
    ranking
}

} // verus!
