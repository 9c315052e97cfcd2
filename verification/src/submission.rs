//! A submission and the commit-reveal vote on it.
//!
//! While the voting is open, referees commit: each hands in the commitment
//! to a vote, and may hand in commitments to comments. The voting ends once
//! the committed votes are exactly a quorum. From then on referees reveal,
//! and what a referee reveals is taken only if it is what they committed.
//! The decision is made over the votes that were revealed.

use crate::digest::commitment;
use crate::outcome::{Outcome, Rejection};
use crate::ranking::PANEL_SIZE;
use crate::revealed::RevealedMap;
use crate::text::same_text;
use vstd::prelude::*;

verus! {

/// How many votes must be committed for the voting to end.
pub const QUORUM: usize = 3;

/// The commitment of a referee to a vote.
#[derive(Clone, Debug, PartialEq, Eq)]
pub struct VoteCommit {
    pub reviewer: String,
    /// The commitment, as lower-case hexadecimal text.
    pub commit: String,
}

/// The commitment of a referee to a comment.
#[derive(Clone, Debug, PartialEq, Eq)]
pub struct CommentCommit {
    pub reviewer: String,
    /// The commitment, as lower-case hexadecimal text.
    pub commit: String,
}

/// What a `VoteCommit` or a `CommentCommit` holds, as plain text.
pub struct CommitView {
    pub reviewer: Seq<char>,
    pub commit: Seq<char>,
}

impl DeepView for VoteCommit {
    type V = CommitView;

    open spec fn deep_view(&self) -> CommitView {
        CommitView { reviewer: self.reviewer@, commit: self.commit@ }
    }
}

impl DeepView for CommentCommit {
    type V = CommitView;

    open spec fn deep_view(&self) -> CommitView {
        CommitView { reviewer: self.reviewer@, commit: self.commit@ }
    }
}

/// The commitments and disclosures of one submission.
#[derive(Clone, Debug)]
pub struct SubmissionVote {
    pub submission_id: u64,
    /// The committed votes, in the order in which they came.
    pub vote_commits: Vec<VoteCommit>,
    /// The votes that were revealed, by referee.
    pub revealed_votes: RevealedMap,
    /// The committed comments, in the order in which they came.
    pub comment_commits: Vec<CommentCommit>,
    /// The comments that were revealed, by referee.
    pub revealed_comments: RevealedMap,
}

/// A submission: what was handed in, who is suggested to review it, the
/// vote on it, and the decision once it is made.
#[derive(Clone, Debug)]
pub struct Submission {
    pub author: String,
    pub response: String,
    pub suggested_reviewers: Vec<String>,
    pub submission_votes: SubmissionVote,
    /// Whether the voting has ended. It never starts again.
    pub voting_ended: bool,
    /// The decision: `Some(true)` for accepted, `Some(false)` for rejected.
    pub accepted: Option<bool>,
}

/// What a `Submission` holds, as plain values.
pub struct SubmissionView {
    pub submission_id: u64,
    pub author: Seq<char>,
    pub response: Seq<char>,
    pub suggested_reviewers: Seq<Seq<char>>,
    pub vote_commits: Seq<CommitView>,
    pub revealed_votes: Map<Seq<char>, Seq<char>>,
    pub comment_commits: Seq<CommitView>,
    pub revealed_comments: Map<Seq<char>, Seq<char>>,
    pub voting_ended: bool,
    pub accepted: Option<bool>,
}

impl DeepView for Submission {
    type V = SubmissionView;

    open spec fn deep_view(&self) -> SubmissionView {
        SubmissionView {
            submission_id: self.submission_votes.submission_id,
            author: self.author@,
            response: self.response@,
            suggested_reviewers: self.suggested_reviewers.deep_view(),
            vote_commits: self.submission_votes.vote_commits.deep_view(),
            revealed_votes: self.submission_votes.revealed_votes@,
            comment_commits: self.submission_votes.comment_commits.deep_view(),
            revealed_comments: self.submission_votes.revealed_comments@,
            voting_ended: self.voting_ended,
            accepted: self.accepted,
        }
    }
}

impl View for Submission {
    type V = SubmissionView;

    open spec fn view(&self) -> SubmissionView {
        self.deep_view()
    }
}

/// The vote that counts for acceptance.
pub open spec fn accept_text() -> Seq<char> {
    "accept"@
}

/// The commitment that stands first under the name of the referee, if there is
/// one.
pub open spec fn first_commit(commits: Seq<CommitView>, reviewer: Seq<char>) -> Option<Seq<char>>
    decreases commits.len(),
{
    if commits.len() == 0 {
        None
    } else if commits[0].reviewer == reviewer {
        Some(commits[0].commit)
    } else {
        first_commit(commits.drop_first(), reviewer)
    }
}

/// No referee stands twice in `commits`.
pub open spec fn distinct_reviewers(commits: Seq<CommitView>) -> bool {
    forall|i: int, j: int|
        0 <= i < j < commits.len() ==> (#[trigger] commits[i]).reviewer != (
        #[trigger] commits[j]).reviewer
}

/// `commit` is the commitment to `value` under some secret.
pub open spec fn is_commitment_to(commit: Seq<char>, value: Seq<char>) -> bool {
    exists|secret: Seq<char>| commit == #[trigger] commitment(value, secret)
}

/// Whatever was revealed is what the same referee committed first.
pub open spec fn reveals_bound(
    commits: Seq<CommitView>,
    revealed: Map<Seq<char>, Seq<char>>,
) -> bool {
    forall|reviewer: Seq<char>| #[trigger]
        revealed.contains_key(reviewer) ==> match first_commit(commits, reviewer) {
            Some(stored) => is_commitment_to(stored, revealed[reviewer]),
            None => false,
        }
}

/// Every vote in `revealed` is for acceptance; so it is where there is
/// none.
pub open spec fn all_accept(revealed: Map<Seq<char>, Seq<char>>) -> bool {
    forall|reviewer: Seq<char>| #[trigger]
        revealed.contains_key(reviewer) ==> revealed[reviewer] == accept_text()
}

/// How an attempt to reveal ends, for votes and comments alike.
pub open spec fn reveal_outcome(
    voting_ended: bool,
    commits: Seq<CommitView>,
    reviewer: Seq<char>,
    recomputed: Seq<char>,
) -> Outcome {
    if !voting_ended {
        Outcome::Rejected(Rejection::NotReady)
    } else {
        match first_commit(commits, reviewer) {
            None => Outcome::Rejected(Rejection::CommitNotFound),
            Some(stored) => if stored == recomputed {
                Outcome::Applied
            } else {
                Outcome::Rejected(Rejection::CommitMismatch)
            },
        }
    }
}

impl SubmissionView {
    /// What holds of a submission at all times. The panel is no larger than
    /// a panel may be. No referee has committed two votes. The voting has
    /// ended only on a quorum of committed votes, and a decision is there
    /// only once it has ended. Nothing is revealed before it has ended, and
    /// what is revealed under a name is, under some secret, what stands
    /// first committed under that name.
    pub open spec fn wf(self) -> bool {
        &&& self.suggested_reviewers.len() <= PANEL_SIZE
        &&& distinct_reviewers(self.vote_commits)
        &&& self.voting_ended ==> self.vote_commits.len() == QUORUM
        &&& self.accepted is Some ==> self.voting_ended
        &&& !self.voting_ended ==> self.revealed_votes == Map::<Seq<char>, Seq<char>>::empty()
        &&& !self.voting_ended ==> self.revealed_comments == Map::<Seq<char>, Seq<char>>::empty()
        &&& reveals_bound(self.vote_commits, self.revealed_votes)
        &&& reveals_bound(self.comment_commits, self.revealed_comments)
    }

    /// A fresh submission: nothing committed, the voting open, no decision.
    pub open spec fn fresh(
        submission_id: u64,
        author: Seq<char>,
        response: Seq<char>,
        suggested_reviewers: Seq<Seq<char>>,
    ) -> SubmissionView {
        SubmissionView {
            submission_id,
            author,
            response,
            suggested_reviewers,
            vote_commits: Seq::empty(),
            revealed_votes: Map::empty(),
            comment_commits: Seq::empty(),
            revealed_comments: Map::empty(),
            voting_ended: false,
            accepted: None,
        }
    }

    /// How committing a vote under the name of the referee ends.
    pub open spec fn commit_vote_outcome(self, reviewer: Seq<char>) -> Outcome {
        if self.voting_ended {
            Outcome::Rejected(Rejection::PhaseError)
        } else if first_commit(self.vote_commits, reviewer) is Some {
            Outcome::Rejected(Rejection::DuplicateCommit)
        } else {
            Outcome::Applied
        }
    }

    /// The submission after a vote was committed under the name of the referee.
    pub open spec fn after_commit_vote(self, reviewer: Seq<char>, commit: Seq<char>) -> SubmissionView {
        if self.commit_vote_outcome(reviewer) == Outcome::Applied {
            SubmissionView { vote_commits: self.vote_commits.push(CommitView { reviewer, commit }), ..self }
        } else {
            self
        }
    }

    /// How committing a comment ends.
    pub open spec fn commit_comment_outcome(self) -> Outcome {
        if self.voting_ended {
            Outcome::Rejected(Rejection::PhaseError)
        } else {
            Outcome::Applied
        }
    }

    /// The submission after a comment was committed under the name
    /// the referee.
    pub open spec fn after_commit_comment(self, reviewer: Seq<char>, commit: Seq<char>) -> SubmissionView {
        if self.commit_comment_outcome() == Outcome::Applied {
            SubmissionView {
                comment_commits: self.comment_commits.push(CommitView { reviewer, commit }),
                ..self
            }
        } else {
            self
        }
    }

    /// How an attempt to end the voting ends.
    pub open spec fn end_voting_outcome(self) -> Outcome {
        if self.vote_commits.len() == QUORUM {
            Outcome::Applied
        } else {
            Outcome::Rejected(Rejection::QuorumUnmet)
        }
    }

    /// The submission after an attempt to end the voting.
    pub open spec fn after_end_voting(self) -> SubmissionView {
        if self.end_voting_outcome() == Outcome::Applied {
            SubmissionView { voting_ended: true, ..self }
        } else {
            self
        }
    }

    /// How revealing a vote ends, where `recomputed` is the commitment to
    /// what was revealed.
    pub open spec fn reveal_vote_outcome(self, reviewer: Seq<char>, recomputed: Seq<char>) -> Outcome {
        reveal_outcome(self.voting_ended, self.vote_commits, reviewer, recomputed)
    }

    /// The submission after the referee revealed `vote`.
    pub open spec fn after_reveal_vote(
        self,
        reviewer: Seq<char>,
        vote: Seq<char>,
        recomputed: Seq<char>,
    ) -> SubmissionView {
        if self.reveal_vote_outcome(reviewer, recomputed) == Outcome::Applied {
            SubmissionView { revealed_votes: self.revealed_votes.insert(reviewer, vote), ..self }
        } else {
            self
        }
    }

    /// How revealing a comment ends, where `recomputed` is the commitment
    /// to what was revealed.
    pub open spec fn reveal_comment_outcome(self, reviewer: Seq<char>, recomputed: Seq<char>) -> Outcome {
        reveal_outcome(self.voting_ended, self.comment_commits, reviewer, recomputed)
    }

    /// The submission after the referee revealed `comment`.
    pub open spec fn after_reveal_comment(
        self,
        reviewer: Seq<char>,
        comment: Seq<char>,
        recomputed: Seq<char>,
    ) -> SubmissionView {
        if self.reveal_comment_outcome(reviewer, recomputed) == Outcome::Applied {
            SubmissionView {
                revealed_comments: self.revealed_comments.insert(reviewer, comment),
                ..self
            }
        } else {
            self
        }
    }

    /// How an attempt to decide ends.
    pub open spec fn finalize_outcome(self) -> Outcome {
        if self.voting_ended {
            Outcome::Applied
        } else {
            Outcome::Rejected(Rejection::NotReady)
        }
    }

    /// The submission after an attempt to decide: accepted if and only if
    /// every revealed vote is for acceptance.
    pub open spec fn after_finalize(self) -> SubmissionView {
        if self.finalize_outcome() == Outcome::Applied {
            SubmissionView { accepted: Some(all_accept(self.revealed_votes)), ..self }
        } else {
            self
        }
    }
}

/// A name under which nothing stands first stands nowhere, and the other way
/// round.
pub proof fn lemma_first_commit_none(commits: Seq<CommitView>, reviewer: Seq<char>)
    ensures
        first_commit(commits, reviewer) is None <==> forall|i: int|
            0 <= i < commits.len() ==> (#[trigger] commits[i]).reviewer != reviewer,
    decreases commits.len(),
{
    if commits.len() > 0 {
        let rest = commits.drop_first();
        lemma_first_commit_none(rest, reviewer);
        if commits[0].reviewer != reviewer {
            if first_commit(rest, reviewer) is None {
                assert forall|i: int| 0 <= i < commits.len() implies (#[trigger] commits[i]).reviewer
                    != reviewer by {
                    if i > 0 {
                        assert(rest[i - 1] == commits[i]);
                    }
                }
            } else {
                let k = choose|k: int| 0 <= k < rest.len() && (#[trigger] rest[k]).reviewer == reviewer;
                assert(commits[k + 1] == rest[k]);
            }
        }
    }
}

/// A later commitment does not change what stands first under a name that
/// has one.
pub proof fn lemma_first_commit_push(commits: Seq<CommitView>, added: CommitView, reviewer: Seq<char>)
    ensures
        first_commit(commits, reviewer) is Some ==> first_commit(commits.push(added), reviewer)
            == first_commit(commits, reviewer),
        first_commit(commits, reviewer) is None ==> first_commit(commits.push(added), reviewer) == (
        if added.reviewer == reviewer {
            Some(added.commit)
        } else {
            None
        }),
    decreases commits.len(),
{
    let grown = commits.push(added);
    if commits.len() > 0 {
        assert(grown[0] == commits[0]);
        assert(grown.drop_first() =~= commits.drop_first().push(added));
        lemma_first_commit_push(commits.drop_first(), added, reviewer);
    } else {
        assert(grown[0] == added);
        assert(grown.drop_first().len() == 0);
        assert(first_commit(grown.drop_first(), reviewer) is None);
    }
}

/// Committing a vote keeps a submission well-formed.
pub proof fn lemma_commit_vote_keeps_wf(s: SubmissionView, reviewer: Seq<char>, commit: Seq<char>)
    requires
        s.wf(),
    ensures
        s.after_commit_vote(reviewer, commit).wf(),
{
    if s.commit_vote_outcome(reviewer) == Outcome::Applied {
        let after = s.after_commit_vote(reviewer, commit);
        lemma_first_commit_none(s.vote_commits, reviewer);
        assert forall|i: int, j: int| 0 <= i < j < after.vote_commits.len() implies (
        #[trigger] after.vote_commits[i]).reviewer != (#[trigger] after.vote_commits[j]).reviewer by {
            if j < s.vote_commits.len() {
                assert(s.vote_commits[i].reviewer != s.vote_commits[j].reviewer);
            } else {
                assert(s.vote_commits[i].reviewer != reviewer);
            }
        }
    }
}

/// Committing a comment keeps a submission well-formed.
pub proof fn lemma_commit_comment_keeps_wf(s: SubmissionView, reviewer: Seq<char>, commit: Seq<char>)
    requires
        s.wf(),
    ensures
        s.after_commit_comment(reviewer, commit).wf(),
{
}

/// Ending the voting keeps a submission well-formed.
pub proof fn lemma_end_voting_keeps_wf(s: SubmissionView)
    requires
        s.wf(),
    ensures
        s.after_end_voting().wf(),
{
}

/// Revealing a vote keeps a submission well-formed, where what is compared
/// with the stored commitment is a commitment to the vote.
pub proof fn lemma_reveal_vote_keeps_wf(
    s: SubmissionView,
    reviewer: Seq<char>,
    vote: Seq<char>,
    recomputed: Seq<char>,
)
    requires
        s.wf(),
        is_commitment_to(recomputed, vote),
    ensures
        s.after_reveal_vote(reviewer, vote, recomputed).wf(),
{
    let after = s.after_reveal_vote(reviewer, vote, recomputed);
    assert forall|r: Seq<char>| #[trigger] after.revealed_votes.contains_key(r) implies (match first_commit(
        after.vote_commits,
        r,
    ) {
        Some(stored) => is_commitment_to(stored, after.revealed_votes[r]),
        None => false,
    }) by {
        if r != reviewer || s.reveal_vote_outcome(reviewer, recomputed) != Outcome::Applied {
            assert(s.revealed_votes.contains_key(r));
        }
    }
}

/// Revealing a comment keeps a submission well-formed, where what is
/// compared with the stored commitment is a commitment to the comment.
pub proof fn lemma_reveal_comment_keeps_wf(
    s: SubmissionView,
    reviewer: Seq<char>,
    comment: Seq<char>,
    recomputed: Seq<char>,
)
    requires
        s.wf(),
        is_commitment_to(recomputed, comment),
    ensures
        s.after_reveal_comment(reviewer, comment, recomputed).wf(),
{
    let after = s.after_reveal_comment(reviewer, comment, recomputed);
    assert forall|r: Seq<char>| #[trigger] after.revealed_comments.contains_key(r) implies (match first_commit(
        after.comment_commits,
        r,
    ) {
        Some(stored) => is_commitment_to(stored, after.revealed_comments[r]),
        None => false,
    }) by {
        if r != reviewer || s.reveal_comment_outcome(reviewer, recomputed) != Outcome::Applied {
            assert(s.revealed_comments.contains_key(r));
        }
    }
}

/// Deciding keeps a submission well-formed.
pub proof fn lemma_finalize_keeps_wf(s: SubmissionView)
    requires
        s.wf(),
    ensures
        s.after_finalize().wf(),
{
}

/// The place of the first commitment under the name of the referee.
fn find_vote_commit(commits: &Vec<VoteCommit>, reviewer: &str) -> (place: Option<usize>)
    ensures
        match place {
            Some(i) => i < commits@.len() && first_commit(commits.deep_view(), reviewer@) == Some(
                commits@[i as int].commit@,
            ),
            None => first_commit(commits.deep_view(), reviewer@) is None,
        },
{
    let n: usize = commits.len();
    let ghost all = commits.deep_view();
    let mut i: usize = 0;
    proof {
        assert(all.skip(0) =~= all);
    }
    while i < n
        invariant
            n == commits@.len(),
            all == commits.deep_view(),
            i <= n,
            first_commit(all, reviewer@) == first_commit(all.skip(i as int), reviewer@),
        decreases n - i,
    {
        proof {
            assert(all.skip(i as int)[0] == commits@[i as int].deep_view());
            assert(all.skip(i as int).drop_first() =~= all.skip(i + 1));
        }
        if same_text(commits[i].reviewer.as_str(), reviewer) {
            return Some(i);
        }
        i += 1;
    }
    None
}

/// The place of the first commitment under the name of the referee.
fn find_comment_commit(commits: &Vec<CommentCommit>, reviewer: &str) -> (place: Option<usize>)
    ensures
        match place {
            Some(i) => i < commits@.len() && first_commit(commits.deep_view(), reviewer@) == Some(
                commits@[i as int].commit@,
            ),
            None => first_commit(commits.deep_view(), reviewer@) is None,
        },
{
    let n: usize = commits.len();
    let ghost all = commits.deep_view();
    let mut i: usize = 0;
    proof {
        assert(all.skip(0) =~= all);
    }
    while i < n
        invariant
            n == commits@.len(),
            all == commits.deep_view(),
            i <= n,
            first_commit(all, reviewer@) == first_commit(all.skip(i as int), reviewer@),
        decreases n - i,
    {
        proof {
            assert(all.skip(i as int)[0] == commits@[i as int].deep_view());
            assert(all.skip(i as int).drop_first() =~= all.skip(i + 1));
        }
        if same_text(commits[i].reviewer.as_str(), reviewer) {
            return Some(i);
        }
        i += 1;
    }
    None
}

impl Submission {
    /// A fresh submission: nothing committed, the voting open, no decision.
    pub fn new(
        submission_id: u64,
        author: String,
        response: String,
        suggested_reviewers: Vec<String>,
    ) -> (submission: Submission)
        ensures
            submission@ == SubmissionView::fresh(
                submission_id,
                author@,
                response@,
                suggested_reviewers.deep_view(),
            ),
    {
        let submission = Submission {
            author,
            response,
            suggested_reviewers,
            submission_votes: SubmissionVote {
                submission_id,
                vote_commits: Vec::new(),
                revealed_votes: RevealedMap::new(),
                comment_commits: Vec::new(),
                revealed_comments: RevealedMap::new(),
            },
            voting_ended: false,
            accepted: None,
        };
        proof {
            assert(submission@.vote_commits =~= Seq::<CommitView>::empty());
            assert(submission@.comment_commits =~= Seq::<CommitView>::empty());
        }
        submission
    }

    /// Takes the commitment `commit` of the referee to a vote: while the
    /// voting is open, and once for each referee.
    pub fn commit_vote(&mut self, reviewer: String, commit: String) -> (outcome: Outcome)
        ensures
            outcome == old(self)@.commit_vote_outcome(reviewer@),
            final(self)@ == old(self)@.after_commit_vote(reviewer@, commit@),
            old(self)@.wf() ==> final(self)@.wf(),
    {
        proof {
            if self@.wf() {
                lemma_commit_vote_keeps_wf(self@, reviewer@, commit@);
            }
        }
        if self.voting_ended {
            return Outcome::Rejected(Rejection::PhaseError);
        }
        if find_vote_commit(&self.submission_votes.vote_commits, reviewer.as_str()).is_some() {
            return Outcome::Rejected(Rejection::DuplicateCommit);
        }
        self.submission_votes.vote_commits.push(VoteCommit { reviewer, commit });
        proof {
            assert(self@.vote_commits =~= old(self)@.vote_commits.push(
                CommitView { reviewer: reviewer@, commit: commit@ },
            ));
        }
        Outcome::Applied
    }

    /// Takes the commitment `commit` of the referee to a comment, while the
    /// voting is open. A referee may commit to more than one comment; only
    /// the first can be revealed.
    pub fn commit_comment(&mut self, reviewer: String, commit: String) -> (outcome: Outcome)
        ensures
            outcome == old(self)@.commit_comment_outcome(),
            final(self)@ == old(self)@.after_commit_comment(reviewer@, commit@),
            old(self)@.wf() ==> final(self)@.wf(),
    {
        proof {
            if self@.wf() {
                lemma_commit_comment_keeps_wf(self@, reviewer@, commit@);
            }
        }
        if self.voting_ended {
            return Outcome::Rejected(Rejection::PhaseError);
        }
        self.submission_votes.comment_commits.push(CommentCommit { reviewer, commit });
        proof {
            assert(self@.comment_commits =~= old(self)@.comment_commits.push(
                CommitView { reviewer: reviewer@, commit: commit@ },
            ));
        }
        Outcome::Applied
    }

    /// Ends the voting, if the committed votes are exactly a quorum.
    pub fn end_voting(&mut self) -> (outcome: Outcome)
        ensures
            outcome == old(self)@.end_voting_outcome(),
            final(self)@ == old(self)@.after_end_voting(),
            old(self)@.wf() ==> final(self)@.wf(),
    {
        proof {
            if self@.wf() {
                lemma_end_voting_keeps_wf(self@);
            }
        }
        if self.submission_votes.vote_commits.len() == QUORUM {
            self.voting_ended = true;
            Outcome::Applied
        } else {
            Outcome::Rejected(Rejection::QuorumUnmet)
        }
    }

    /// Records the vote that the referee reveals, if the voting has ended and
    /// `recomputed`, the commitment to what is revealed, is the commitment
    /// that stands first under the referee's name. A vote revealed before is
    /// replaced.
    pub fn reveal_vote(&mut self, reviewer: String, vote: String, recomputed: &str) -> (outcome:
        Outcome)
        ensures
            outcome == old(self)@.reveal_vote_outcome(reviewer@, recomputed@),
            final(self)@ == old(self)@.after_reveal_vote(reviewer@, vote@, recomputed@),
            old(self)@.wf() && is_commitment_to(recomputed@, vote@) ==> final(self)@.wf(),
    {
        proof {
            if self@.wf() && is_commitment_to(recomputed@, vote@) {
                lemma_reveal_vote_keeps_wf(self@, reviewer@, vote@, recomputed@);
            }
        }
        if !self.voting_ended {
            return Outcome::Rejected(Rejection::NotReady);
        }
        match find_vote_commit(&self.submission_votes.vote_commits, reviewer.as_str()) {
            None => Outcome::Rejected(Rejection::CommitNotFound),
            Some(i) => {
                if same_text(self.submission_votes.vote_commits[i].commit.as_str(), recomputed) {
                    self.submission_votes.revealed_votes.insert(reviewer, vote);
                    Outcome::Applied
                } else {
                    Outcome::Rejected(Rejection::CommitMismatch)
                }
            },
        }
    }

    /// Records the comment that the referee reveals, if the voting has ended
    /// and `recomputed`, the commitment to what is revealed, is the
    /// commitment that stands first under the referee's name. A comment
    /// revealed before is replaced.
    pub fn reveal_comment(&mut self, reviewer: String, comment: String, recomputed: &str) -> (outcome:
        Outcome)
        ensures
            outcome == old(self)@.reveal_comment_outcome(reviewer@, recomputed@),
            final(self)@ == old(self)@.after_reveal_comment(reviewer@, comment@, recomputed@),
            old(self)@.wf() && is_commitment_to(recomputed@, comment@) ==> final(self)@.wf(),
    {
        proof {
            if self@.wf() && is_commitment_to(recomputed@, comment@) {
                lemma_reveal_comment_keeps_wf(self@, reviewer@, comment@, recomputed@);
            }
        }
        if !self.voting_ended {
            return Outcome::Rejected(Rejection::NotReady);
        }
        match find_comment_commit(&self.submission_votes.comment_commits, reviewer.as_str()) {
            None => Outcome::Rejected(Rejection::CommitNotFound),
            Some(i) => {
                if same_text(self.submission_votes.comment_commits[i].commit.as_str(), recomputed) {
                    self.submission_votes.revealed_comments.insert(reviewer, comment);
                    Outcome::Applied
                } else {
                    Outcome::Rejected(Rejection::CommitMismatch)
                }
            },
        }
    }

    /// Decides, once the voting has ended: the submission is accepted if
    /// every revealed vote is for acceptance, and rejected otherwise. A
    /// referee who committed and did not reveal is left out of the count.
    /// A later call decides anew, over what is revealed by then.
    pub fn finalize(&mut self) -> (outcome: Outcome)
        ensures
            outcome == old(self)@.finalize_outcome(),
            final(self)@ == old(self)@.after_finalize(),
            old(self)@.wf() ==> final(self)@.wf(),
    {
        proof {
            if self@.wf() {
                lemma_finalize_keeps_wf(self@);
            }
        }
        if !self.voting_ended {
            return Outcome::Rejected(Rejection::NotReady);
        }
        let all = self.submission_votes.revealed_votes.all_values_are("accept");
        self.accepted = Some(all);
        Outcome::Applied
    }
}

} // verus!
