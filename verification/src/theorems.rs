//! What holds of the ranking and of the vote, proved from the definitions
//! that the operations are specified by.

use crate::digest::commitment;
use crate::outcome::{Outcome, Rejection};
use crate::ranking::{
    is_picked, is_ranking, is_top_selection, key_le, lemma_key_le_antisymmetric,
    lemma_key_le_reflexive, lemma_key_le_transitive, lemma_score_bounded, rank_keys, scored_entry,
    RankKey, ReviewerView,
};
use vstd::seq_lib::seq_to_set_is_finite;
use vstd::set_lib::lemma_len_subset;
use crate::submission::{
    accept_text, all_accept, distinct_reviewers, first_commit, lemma_commit_comment_keeps_wf,
    lemma_commit_vote_keeps_wf, lemma_end_voting_keeps_wf, lemma_finalize_keeps_wf,
    lemma_first_commit_none, lemma_first_commit_push, lemma_reveal_comment_keeps_wf,
    lemma_reveal_vote_keeps_wf, CommitView, SubmissionView, QUORUM,
};
use vstd::prelude::*;

verus! {

/// A ranking has no more entries than the limit and no more than there are
/// referees.
pub proof fn theorem_ranking_is_short(
    data: Seq<char>,
    reviewers: Seq<ReviewerView>,
    limit: int,
    ranking: Seq<(Seq<char>, u32)>,
)
    requires
        is_ranking(data, reviewers, limit, ranking),
    ensures
        ranking.len() <= limit,
        ranking.len() <= reviewers.len(),
{
}

/// Each entry of a ranking is a referee with their score, and the score is
/// no greater than the number of that referee's keywords.
pub proof fn theorem_ranking_entry_is_bounded(
    data: Seq<char>,
    reviewers: Seq<ReviewerView>,
    limit: int,
    ranking: Seq<(Seq<char>, u32)>,
    j: int,
)
    requires
        is_ranking(data, reviewers, limit, ranking),
        0 <= j < ranking.len(),
    ensures
        exists|i: int|
            #![trigger scored_entry(data, reviewers, i)]
            {
                &&& 0 <= i < reviewers.len()
                &&& ranking[j] == scored_entry(data, reviewers, i)
                &&& 0 <= ranking[j].1 <= reviewers[i].keywords.len()
            },
{
    let picked = choose|picked: Seq<usize>|
        {
            &&& is_top_selection(rank_keys(data, reviewers), limit, picked)
            &&& #[trigger] picked.len() == ranking.len()
            &&& forall|j: int|
                0 <= j < ranking.len() ==> #[trigger] ranking[j] == scored_entry(
                    data,
                    reviewers,
                    picked[j] as int,
                )
        };
    let i = picked[j] as int;
    lemma_score_bounded(data, reviewers[i].keywords);
    assert(ranking[j] == scored_entry(data, reviewers, i));
}

/// Where there are no more referees than the limit, the ranking holds
/// every one of them.
pub proof fn theorem_ranking_holds_all_of_few(
    data: Seq<char>,
    reviewers: Seq<ReviewerView>,
    limit: int,
    ranking: Seq<(Seq<char>, u32)>,
    i: int,
)
    requires
        is_ranking(data, reviewers, limit, ranking),
        reviewers.len() <= limit,
        0 <= i < reviewers.len(),
    ensures
        ranking.len() == reviewers.len(),
        exists|j: int|
            #![trigger ranking[j]]
            0 <= j < ranking.len() && ranking[j] == scored_entry(data, reviewers, i),
{
    let picked = choose|picked: Seq<usize>|
        {
            &&& is_top_selection(rank_keys(data, reviewers), limit, picked)
            &&& #[trigger] picked.len() == ranking.len()
            &&& forall|j: int|
                0 <= j < ranking.len() ==> #[trigger] ranking[j] == scored_entry(
                    data,
                    reviewers,
                    picked[j] as int,
                )
        };
    assert(is_picked(picked, i));
    let j = choose|j: int| 0 <= j < picked.len() && picked[j] == i;
    assert(ranking[j] == scored_entry(data, reviewers, i));
}

/// Of two referees of whom one is in the ranking and the other is not, the
/// one left out has no greater score; and where the scores are equal, no
/// greater name.
pub proof fn theorem_ranking_leaves_out_the_least(
    data: Seq<char>,
    reviewers: Seq<ReviewerView>,
    limit: int,
    ranking: Seq<(Seq<char>, u32)>,
    out: int,
    j: int,
)
    requires
        is_ranking(data, reviewers, limit, ranking),
        0 <= out < reviewers.len(),
        0 <= j < ranking.len(),
        forall|k: int| 0 <= k < ranking.len() ==> ranking[k] != scored_entry(data, reviewers, out),
    ensures
        key_le(
            rank_keys(data, reviewers)[out],
            (ranking[j].1, vstd::utf8::encode_utf8(ranking[j].0)),
        ),
{
    let picked = choose|picked: Seq<usize>|
        {
            &&& is_top_selection(rank_keys(data, reviewers), limit, picked)
            &&& #[trigger] picked.len() == ranking.len()
            &&& forall|j: int|
                0 <= j < ranking.len() ==> #[trigger] ranking[j] == scored_entry(
                    data,
                    reviewers,
                    picked[j] as int,
                )
        };
    if is_picked(picked, out) {
        let k = choose|k: int| 0 <= k < picked.len() && picked[k] == out;
        assert(ranking[k] == scored_entry(data, reviewers, out));
    }
    assert(ranking[j] == scored_entry(data, reviewers, picked[j] as int));
}

/// The entries of a ranking stand in falling order: by score, and among
/// equal scores by name.
pub proof fn theorem_ranking_is_ordered(
    data: Seq<char>,
    reviewers: Seq<ReviewerView>,
    limit: int,
    ranking: Seq<(Seq<char>, u32)>,
    i: int,
    j: int,
)
    requires
        is_ranking(data, reviewers, limit, ranking),
        0 <= i < j < ranking.len(),
    ensures
        key_le(
            (ranking[j].1, vstd::utf8::encode_utf8(ranking[j].0)),
            (ranking[i].1, vstd::utf8::encode_utf8(ranking[i].0)),
        ),
{
    let picked = choose|picked: Seq<usize>|
        {
            &&& is_top_selection(rank_keys(data, reviewers), limit, picked)
            &&& #[trigger] picked.len() == ranking.len()
            &&& forall|j: int|
                0 <= j < ranking.len() ==> #[trigger] ranking[j] == scored_entry(
                    data,
                    reviewers,
                    picked[j] as int,
                )
        };
    assert(is_top_selection(rank_keys(data, reviewers), limit, picked));
    assert(ranking[i] == scored_entry(data, reviewers, picked[i] as int));
    assert(ranking[j] == scored_entry(data, reviewers, picked[j] as int));
    let keys = rank_keys(data, reviewers);
    assert(key_le(keys[picked[j] as int], keys[picked[i] as int]));
}

/// At each place, one selection of the greatest holds a key no greater than
/// any other selection of the greatest holds there.
proof fn lemma_selections_agree_one_way(
    keys: Seq<RankKey>,
    limit: int,
    p: Seq<usize>,
    q: Seq<usize>,
    j: int,
)
    requires
        is_top_selection(keys, limit, p),
        is_top_selection(keys, limit, q),
        0 <= j < p.len(),
    ensures
        key_le(keys[p[j] as int], keys[q[j] as int]),
{
    if !key_le(keys[p[j] as int], keys[q[j] as int]) {
        // then the first j + 1 picks of p all stand among the first j of q
        let a = p.take(j + 1);
        let b = q.take(j);
        assert(a.no_duplicates());
        a.unique_seq_to_set();
        b.lemma_cardinality_of_set();
        assert forall|x: usize| a.to_set().contains(x) implies b.to_set().contains(x) by {
            let i = choose|i: int| 0 <= i < a.len() && a[i] == x;
            assert(p[i] == x);
            if i < j {
                assert(key_le(keys[p[j] as int], keys[p[i] as int]));
            } else {
                lemma_key_le_reflexive(keys[p[j] as int]);
            }
            if !is_picked(q, x as int) {
                assert(key_le(keys[x as int], keys[q[j] as int]));
                lemma_key_le_transitive(keys[p[j] as int], keys[x as int], keys[q[j] as int]);
            } else {
                let t = choose|t: int| 0 <= t < q.len() && q[t] == x as int;
                if t >= j {
                    if t > j {
                        assert(key_le(keys[q[t] as int], keys[q[j] as int]));
                    } else {
                        lemma_key_le_reflexive(keys[q[j] as int]);
                    }
                    lemma_key_le_transitive(keys[p[j] as int], keys[x as int], keys[q[j] as int]);
                }
                assert(b[t] == x);
            }
        }
        seq_to_set_is_finite(b);
        lemma_len_subset(a.to_set(), b.to_set());
    }
}

/// Content, referees and limit determine the ranking: there are no two.
pub proof fn theorem_ranking_is_unique(
    data: Seq<char>,
    reviewers: Seq<ReviewerView>,
    limit: int,
    one: Seq<(Seq<char>, u32)>,
    other: Seq<(Seq<char>, u32)>,
)
    requires
        is_ranking(data, reviewers, limit, one),
        is_ranking(data, reviewers, limit, other),
    ensures
        one == other,
{
    let keys = rank_keys(data, reviewers);
    let p = choose|picked: Seq<usize>|
        {
            &&& is_top_selection(rank_keys(data, reviewers), limit, picked)
            &&& #[trigger] picked.len() == one.len()
            &&& forall|j: int|
                0 <= j < one.len() ==> #[trigger] one[j] == scored_entry(
                    data,
                    reviewers,
                    picked[j] as int,
                )
        };
    let q = choose|picked: Seq<usize>|
        {
            &&& is_top_selection(rank_keys(data, reviewers), limit, picked)
            &&& #[trigger] picked.len() == other.len()
            &&& forall|j: int|
                0 <= j < other.len() ==> #[trigger] other[j] == scored_entry(
                    data,
                    reviewers,
                    picked[j] as int,
                )
        };
    assert forall|j: int| 0 <= j < one.len() implies one[j] == other[j] by {
        lemma_selections_agree_one_way(keys, limit, p, q, j);
        lemma_selections_agree_one_way(keys, limit, q, p, j);
        lemma_key_le_antisymmetric(keys[p[j] as int], keys[q[j] as int]);
        let first = reviewers[p[j] as int].name;
        let second = reviewers[q[j] as int].name;
        vstd::utf8::encode_utf8_decode_utf8(first);
        vstd::utf8::encode_utf8_decode_utf8(second);
        assert(one[j] == scored_entry(data, reviewers, p[j] as int));
        assert(other[j] == scored_entry(data, reviewers, q[j] as int));
    }
    assert(one =~= other);
}

/// Two pairs of value and secret that join to the same bytes have the same
/// commitment: who committed to the one can reveal the other.
pub proof fn theorem_equal_joins_commit_alike(
    value: Seq<char>,
    secret: Seq<char>,
    other_value: Seq<char>,
    other_secret: Seq<char>,
)
    requires
        vstd::utf8::encode_utf8(value) + vstd::utf8::encode_utf8(secret) == vstd::utf8::encode_utf8(
            other_value,
        ) + vstd::utf8::encode_utf8(other_secret),
    ensures
        commitment(value, secret) == commitment(other_value, other_secret),
{
}

/// `t` is what one operation makes of the submission `s`. What is compared
/// with a stored commitment, when something is revealed, is the commitment
/// to what is revealed under the secret that comes with it.
pub open spec fn is_step(s: SubmissionView, t: SubmissionView) -> bool {
    ||| exists|reviewer: Seq<char>, commit: Seq<char>|
        t == #[trigger] s.after_commit_vote(reviewer, commit)
    ||| exists|reviewer: Seq<char>, commit: Seq<char>|
        t == #[trigger] s.after_commit_comment(reviewer, commit)
    ||| t == s.after_end_voting()
    ||| exists|reviewer: Seq<char>, vote: Seq<char>, secret: Seq<char>|
        t == #[trigger] s.after_reveal_vote(reviewer, vote, commitment(vote, secret))
    ||| exists|reviewer: Seq<char>, comment: Seq<char>, secret: Seq<char>|
        t == #[trigger] s.after_reveal_comment(reviewer, comment, commitment(comment, secret))
    ||| t == s.after_finalize()
}

/// Every operation keeps a submission well-formed.
pub proof fn theorem_step_keeps_wf(s: SubmissionView, t: SubmissionView)
    requires
        s.wf(),
        is_step(s, t),
    ensures
        t.wf(),
{
    if exists|reviewer: Seq<char>, commit: Seq<char>|
        t == #[trigger] s.after_commit_vote(reviewer, commit) {
        let (reviewer, commit) = choose|reviewer: Seq<char>, commit: Seq<char>|
            t == #[trigger] s.after_commit_vote(reviewer, commit);
        lemma_commit_vote_keeps_wf(s, reviewer, commit);
    } else if exists|reviewer: Seq<char>, commit: Seq<char>|
        t == #[trigger] s.after_commit_comment(reviewer, commit) {
        let (reviewer, commit) = choose|reviewer: Seq<char>, commit: Seq<char>|
            t == #[trigger] s.after_commit_comment(reviewer, commit);
        lemma_commit_comment_keeps_wf(s, reviewer, commit);
    } else if t == s.after_end_voting() {
        lemma_end_voting_keeps_wf(s);
    } else if exists|reviewer: Seq<char>, vote: Seq<char>, secret: Seq<char>|
        t == #[trigger] s.after_reveal_vote(reviewer, vote, commitment(vote, secret)) {
        let (reviewer, vote, secret) = choose|
            reviewer: Seq<char>,
            vote: Seq<char>,
            secret: Seq<char>,
        |
            t == #[trigger] s.after_reveal_vote(reviewer, vote, commitment(vote, secret));
        lemma_reveal_vote_keeps_wf(s, reviewer, vote, commitment(vote, secret));
    } else if exists|reviewer: Seq<char>, comment: Seq<char>, secret: Seq<char>|
        t == #[trigger] s.after_reveal_comment(reviewer, comment, commitment(comment, secret)) {
        let (reviewer, comment, secret) = choose|
            reviewer: Seq<char>,
            comment: Seq<char>,
            secret: Seq<char>,
        |
            t == #[trigger] s.after_reveal_comment(reviewer, comment, commitment(comment, secret));
        lemma_reveal_comment_keeps_wf(s, reviewer, comment, commitment(comment, secret));
    } else {
        lemma_finalize_keeps_wf(s);
    }
}

/// Where the voting on a well-formed submission has ended, exactly a quorum
/// of votes is committed, each by another referee.
pub proof fn theorem_ended_voting_has_quorum(s: SubmissionView)
    requires
        s.wf(),
        s.voting_ended,
    ensures
        s.vote_commits.len() == QUORUM,
        distinct_reviewers(s.vote_commits),
{
}

/// An attempt to end the voting succeeds if and only if the committed votes
/// are exactly a quorum: not fewer, and not more. Where it fails, nothing
/// changes.
pub proof fn theorem_end_voting_takes_quorum(s: SubmissionView)
    ensures
        s.end_voting_outcome() == Outcome::Applied <==> s.vote_commits.len() == QUORUM,
        s.end_voting_outcome() == Outcome::Applied ==> s.after_end_voting().voting_ended,
        s.end_voting_outcome() != Outcome::Applied ==> s.after_end_voting() == s
            && s.end_voting_outcome() == Outcome::Rejected(Rejection::QuorumUnmet),
{
}

/// The voting ends by an attempt to end it, on a quorum of committed votes,
/// and by no other operation.
pub proof fn theorem_voting_ends_on_quorum_only(s: SubmissionView, t: SubmissionView)
    requires
        is_step(s, t),
        !s.voting_ended,
        t.voting_ended,
    ensures
        s.vote_commits.len() == QUORUM,
        t == s.after_end_voting(),
{
}

/// Once the voting has ended, it stays ended, and the committed votes stay
/// as they are.
pub proof fn theorem_ended_voting_stays_ended(s: SubmissionView, t: SubmissionView)
    requires
        is_step(s, t),
        s.voting_ended,
    ensures
        t.voting_ended,
        t.vote_commits == s.vote_commits,
        t.comment_commits == s.comment_commits,
{
}

/// A vote that was committed stands under the referee's name.
pub proof fn theorem_committed_vote_is_recorded(s: SubmissionView, reviewer: Seq<char>, commit: Seq<char>)
    requires
        s.commit_vote_outcome(reviewer) == Outcome::Applied,
    ensures
        first_commit(s.after_commit_vote(reviewer, commit).vote_commits, reviewer) == Some(commit),
        s.after_commit_vote(reviewer, commit).vote_commits.len() == s.vote_commits.len() + 1,
{
    lemma_first_commit_push(s.vote_commits, CommitView { reviewer, commit }, reviewer);
}

/// No operation changes the commitment that stands first under a name.
pub proof fn theorem_step_keeps_commitments(s: SubmissionView, t: SubmissionView, reviewer: Seq<char>)
    requires
        is_step(s, t),
        first_commit(s.vote_commits, reviewer) is Some,
    ensures
        first_commit(t.vote_commits, reviewer) == first_commit(s.vote_commits, reviewer),
{
    if exists|other: Seq<char>, commit: Seq<char>| t == #[trigger] s.after_commit_vote(other, commit) {
        let (other, commit) = choose|other: Seq<char>, commit: Seq<char>|
            t == #[trigger] s.after_commit_vote(other, commit);
        lemma_first_commit_push(s.vote_commits, CommitView { reviewer: other, commit }, reviewer);
    }
}

/// A second commitment of the same referee to a vote changes nothing,
/// whatever became of the first.
pub proof fn theorem_second_commit_changes_nothing(
    s: SubmissionView,
    reviewer: Seq<char>,
    first: Seq<char>,
    second: Seq<char>,
)
    ensures
        ({
            let once = s.after_commit_vote(reviewer, first);
            &&& once.after_commit_vote(reviewer, second) == once
            &&& once.after_commit_vote(reviewer, second).vote_commits.len() == once.vote_commits.len()
            &&& once.commit_vote_outcome(reviewer) != Outcome::Applied
        }),
{
    if s.commit_vote_outcome(reviewer) == Outcome::Applied {
        theorem_committed_vote_is_recorded(s, reviewer, first);
    }
}

/// A commitment to a vote by a referee who has committed one is turned
/// down, and leaves the committed votes as they are.
pub proof fn theorem_duplicate_commit_is_rejected(s: SubmissionView, reviewer: Seq<char>, commit: Seq<char>)
    requires
        first_commit(s.vote_commits, reviewer) is Some,
    ensures
        s.commit_vote_outcome(reviewer) is Rejected,
        s.after_commit_vote(reviewer, commit) == s,
{
}

/// Once the voting has ended, a referee who reveals the vote and the
/// secret that they committed to succeeds, and the vote is recorded as
/// theirs.
pub proof fn theorem_matching_reveal_succeeds(
    s: SubmissionView,
    reviewer: Seq<char>,
    vote: Seq<char>,
    secret: Seq<char>,
)
    requires
        s.voting_ended,
        first_commit(s.vote_commits, reviewer) == Some(commitment(vote, secret)),
    ensures
        s.reveal_vote_outcome(reviewer, commitment(vote, secret)) == Outcome::Applied,
        s.after_reveal_vote(reviewer, vote, commitment(vote, secret)).revealed_votes
            == s.revealed_votes.insert(reviewer, vote),
        s.after_reveal_vote(reviewer, vote, commitment(vote, secret)).revealed_votes[reviewer] == vote,
{
}

/// A referee who reveals a vote and a secret whose commitment is not the
/// one that they committed is turned down, and nothing changes.
pub proof fn theorem_other_reveal_fails(
    s: SubmissionView,
    reviewer: Seq<char>,
    committed: Seq<char>,
    vote: Seq<char>,
    secret: Seq<char>,
)
    requires
        first_commit(s.vote_commits, reviewer) == Some(committed),
        commitment(vote, secret) != committed,
    ensures
        s.reveal_vote_outcome(reviewer, commitment(vote, secret)) == Outcome::Rejected(
            if s.voting_ended {
                Rejection::CommitMismatch
            } else {
                Rejection::NotReady
            },
        ),
        s.after_reveal_vote(reviewer, vote, commitment(vote, secret)) == s,
{
}

/// A referee commits the last vote of a quorum, the voting is ended, and
/// the referee reveals what they committed: the vote is recorded as
/// theirs.
pub proof fn theorem_commit_then_reveal(
    s: SubmissionView,
    reviewer: Seq<char>,
    vote: Seq<char>,
    secret: Seq<char>,
)
    requires
        s.commit_vote_outcome(reviewer) == Outcome::Applied,
        s.vote_commits.len() + 1 == QUORUM,
    ensures
        ({
            let recomputed = commitment(vote, secret);
            let committed = s.after_commit_vote(reviewer, recomputed);
            let ended = committed.after_end_voting();
            &&& committed.end_voting_outcome() == Outcome::Applied
            &&& ended.reveal_vote_outcome(reviewer, recomputed) == Outcome::Applied
            &&& ended.after_reveal_vote(reviewer, vote, recomputed).revealed_votes[reviewer] == vote
        }),
{
    theorem_committed_vote_is_recorded(s, reviewer, commitment(vote, secret));
}

/// Before the voting has ended nothing is revealed: the attempt is turned
/// down, and nothing changes.
pub proof fn theorem_early_reveal_fails(
    s: SubmissionView,
    reviewer: Seq<char>,
    vote: Seq<char>,
    recomputed: Seq<char>,
)
    requires
        !s.voting_ended,
    ensures
        s.reveal_vote_outcome(reviewer, recomputed) == Outcome::Rejected(Rejection::NotReady),
        s.after_reveal_vote(reviewer, vote, recomputed) == s,
        s.reveal_comment_outcome(reviewer, recomputed) == Outcome::Rejected(Rejection::NotReady),
        s.after_reveal_comment(reviewer, vote, recomputed) == s,
        s.finalize_outcome() == Outcome::Rejected(Rejection::NotReady),
        s.after_finalize() == s,
{
}

/// The decision, once the voting has ended: accepted where every revealed
/// vote is for acceptance, and so where no vote is revealed; rejected where
/// a revealed vote is anything else, be it "reject". Who did not reveal has
/// no part in it.
pub proof fn theorem_decision(s: SubmissionView)
    requires
        s.voting_ended,
    ensures
        s.finalize_outcome() == Outcome::Applied,
        s.after_finalize().accepted == Some(all_accept(s.revealed_votes)),
        s.revealed_votes == Map::<Seq<char>, Seq<char>>::empty() ==> s.after_finalize().accepted
            == Some(true),
        (forall|reviewer: Seq<char>| #[trigger]
            s.revealed_votes.contains_key(reviewer) ==> s.revealed_votes[reviewer] == "accept"@)
            ==> s.after_finalize().accepted == Some(true),
        (exists|reviewer: Seq<char>| #[trigger]
            s.revealed_votes.contains_key(reviewer) && s.revealed_votes[reviewer] == "reject"@)
            ==> s.after_finalize().accepted == Some(false),
        (exists|reviewer: Seq<char>| #[trigger]
            s.revealed_votes.contains_key(reviewer) && s.revealed_votes[reviewer] != "accept"@)
            ==> s.after_finalize().accepted == Some(false),
{
    reveal_strlit("accept");
    reveal_strlit("reject");
    assert("accept"@[0] != "reject"@[0]);
}

} // verus!
