//! The ledger: the registry of authors and referees, and the submissions
//! with their votes.
//!
//! Who calls an operation is a value that the caller of the library hands
//! in. Anyone may register an author or a referee and set the license. A
//! referee's keywords are extended by that referee alone. Only a
//! registered author submits, unless open submission is switched on.

use crate::digest::{commit_to, commitment};
use crate::outcome::{Error, Outcome, Rejection};
use crate::ranking::{is_ranking, rank, score_keywords, keyword_score, Reviewer, ReviewerView, PANEL_SIZE};
use crate::submission::{is_commitment_to, Submission, SubmissionView};
use crate::text::same_text;
use vstd::prelude::*;

verus! {

/// The whole state of the ledger.
#[derive(Clone, Debug)]
pub struct Contract {
    pub license: String,
    pub authors: Vec<String>,
    pub reviewers: Vec<Reviewer>,
    /// The submissions; the id of a submission is its place here.
    pub submissions: Vec<Submission>,
    /// Whether one who is not a registered author may submit.
    pub open_submission: bool,
}

/// What a `Contract` holds, as plain values.
pub struct ContractView {
    pub license: Seq<char>,
    pub authors: Seq<Seq<char>>,
    pub reviewers: Seq<ReviewerView>,
    pub submissions: Seq<SubmissionView>,
    pub open_submission: bool,
}

impl DeepView for Contract {
    type V = ContractView;

    open spec fn deep_view(&self) -> ContractView {
        ContractView {
            license: self.license@,
            authors: self.authors.deep_view(),
            reviewers: self.reviewers.deep_view(),
            submissions: self.submissions.deep_view(),
            open_submission: self.open_submission,
        }
    }
}

impl View for Contract {
    type V = ContractView;

    open spec fn view(&self) -> ContractView {
        self.deep_view()
    }
}

/// The license of a new ledger.
pub open spec fn default_license() -> Seq<char> {
    "CC BY-NC-SA"@
}

/// The place of the first referee named `name`, if there is one.
pub open spec fn first_reviewer(reviewers: Seq<ReviewerView>, name: Seq<char>) -> Option<int>
    decreases reviewers.len(),
{
    if reviewers.len() == 0 {
        None
    } else {
        match first_reviewer(reviewers.drop_last(), name) {
            Some(i) => Some(i),
            None => if reviewers.last().name == name {
                Some(reviewers.len() - 1)
            } else {
                None
            },
        }
    }
}

/// The first place of `name` is a place of `name`, and no place before it
/// is; there is none where `name` has no place.
pub proof fn lemma_first_reviewer(reviewers: Seq<ReviewerView>, name: Seq<char>)
    ensures
        match first_reviewer(reviewers, name) {
            Some(i) => 0 <= i < reviewers.len() && reviewers[i].name == name && forall|j: int|
                0 <= j < i ==> (#[trigger] reviewers[j]).name != name,
            None => forall|j: int| 0 <= j < reviewers.len() ==> (#[trigger] reviewers[j]).name != name,
        },
    decreases reviewers.len(),
{
    if reviewers.len() > 0 {
        lemma_first_reviewer(reviewers.drop_last(), name);
        assert forall|j: int| 0 <= j < reviewers.len() - 1 implies reviewers.drop_last()[j]
            == reviewers[j] by {}
    }
}

/// The contents of the accepted among `submissions`, in their order.
pub open spec fn accepted_contents(submissions: Seq<SubmissionView>) -> Seq<Seq<char>>
    decreases submissions.len(),
{
    if submissions.len() == 0 {
        Seq::empty()
    } else if submissions.last().accepted == Some(true) {
        accepted_contents(submissions.drop_last()).push(submissions.last().response)
    } else {
        accepted_contents(submissions.drop_last())
    }
}

/// `suggested` names the best of the referees on `data`, the best first, as
/// many as a panel has at most.
pub open spec fn is_suggestion(
    data: Seq<char>,
    reviewers: Seq<ReviewerView>,
    suggested: Seq<Seq<char>>,
) -> bool {
    exists|ranking: Seq<(Seq<char>, u32)>|
        {
            &&& #[trigger] is_ranking(data, reviewers, PANEL_SIZE as int, ranking)
            &&& suggested.len() == ranking.len()
            &&& forall|j: int| 0 <= j < ranking.len() ==> suggested[j] == ranking[j].0
        }
}

impl ContractView {
    /// What holds of a ledger at all times: every submission is well-formed
    /// and has its place as its id.
    pub open spec fn wf(self) -> bool {
        forall|i: int|
            0 <= i < self.submissions.len() ==> {
                &&& (#[trigger] self.submissions[i]).wf()
                &&& self.submissions[i].submission_id == i
            }
    }

    /// A new ledger.
    pub open spec fn initial() -> ContractView {
        ContractView {
            license: default_license(),
            authors: Seq::empty(),
            reviewers: Seq::empty(),
            submissions: Seq::empty(),
            open_submission: false,
        }
    }

    /// Whether a submission has the id `id`.
    pub open spec fn has_submission(self, id: u64) -> bool {
        id < self.submissions.len()
    }

    /// The ledger with `submission` in the place `id`.
    pub open spec fn with_submission(self, id: u64, submission: SubmissionView) -> ContractView {
        ContractView { submissions: self.submissions.update(id as int, submission), ..self }
    }

    /// Whether `caller` may submit.
    pub open spec fn may_submit(self, caller: Seq<char>) -> bool {
        self.open_submission || self.authors.contains(caller)
    }

    /// How an attempt of `caller` to extend the keywords of the referee
    /// named `name` ends.
    pub open spec fn add_keywords_outcome(self, caller: Seq<char>, name: Seq<char>) -> Outcome {
        if caller != name {
            Outcome::Rejected(Rejection::Unauthorized)
        } else if first_reviewer(self.reviewers, name) is None {
            Outcome::Rejected(Rejection::ReviewerNotFound)
        } else {
            Outcome::Applied
        }
    }

    /// The ledger after `caller` tried to extend the keywords of the
    /// referee named `name` by `new_keywords`: they go behind those of the
    /// first referee of that name.
    pub open spec fn after_add_keywords(
        self,
        caller: Seq<char>,
        name: Seq<char>,
        new_keywords: Seq<Seq<char>>,
    ) -> ContractView {
        if self.add_keywords_outcome(caller, name) == Outcome::Applied {
            let i = first_reviewer(self.reviewers, name)->0;
            ContractView {
                reviewers: self.reviewers.update(
                    i,
                    ReviewerView { name, keywords: self.reviewers[i].keywords + new_keywords },
                ),
                ..self
            }
        } else {
            self
        }
    }

    /// The ledger `after` is this one with a submission of `data` by
    /// `caller` appended: it has the next id and a suggested panel, and is
    /// fresh otherwise.
    pub open spec fn submitted(self, caller: Seq<char>, data: Seq<char>, after: ContractView) -> bool {
        &&& after.submissions.len() == self.submissions.len() + 1
        &&& is_suggestion(data, self.reviewers, after.submissions.last().suggested_reviewers)
        &&& after == ContractView {
            submissions: self.submissions.push(
                SubmissionView::fresh(
                    self.submissions.len() as u64,
                    caller,
                    data,
                    after.submissions.last().suggested_reviewers,
                ),
            ),
            ..self
        }
    }
}

/// The place of the first referee named `name`, if there is one.
fn find_reviewer(reviewers: &Vec<Reviewer>, name: &str) -> (place: Option<usize>)
    ensures
        match place {
            Some(i) => i < reviewers@.len() && first_reviewer(reviewers.deep_view(), name@) == Some(
                i as int,
            ),
            None => first_reviewer(reviewers.deep_view(), name@) is None,
        },
{
    let n: usize = reviewers.len();
    let ghost all = reviewers.deep_view();
    let mut i: usize = 0;
    while i < n
        invariant
            n == reviewers@.len(),
            all == reviewers.deep_view(),
            i <= n,
            forall|j: int| 0 <= j < i ==> (#[trigger] all[j]).name != name@,
        decreases n - i,
    {
        if same_text(reviewers[i].name.as_str(), name) {
            proof {
                lemma_first_reviewer(all, name@);
                assert(all[i as int].name == name@);
            }
            return Some(i);
        }
        i += 1;
    }
    proof {
        lemma_first_reviewer(all, name@);
    }
    None
}

/// Whether `name` is one of `names`.
fn contains_name(names: &Vec<String>, name: &str) -> (found: bool)
    ensures
        found == names.deep_view().contains(name@),
{
    let n: usize = names.len();
    let mut i: usize = 0;
    while i < n
        invariant
            n == names@.len(),
            i <= n,
            forall|j: int| 0 <= j < i ==> names.deep_view()[j] != name@,
        decreases n - i,
    {
        if same_text(names[i].as_str(), name) {
            assert(names.deep_view()[i as int] == name@);
            return true;
        }
        i += 1;
    }
    false
}

impl Contract {
    /// A new ledger: no authors, no referees, no submissions, and
    /// submission reserved to registered authors.
    pub fn new() -> (contract: Contract)
        ensures
            contract@ == ContractView::initial(),
            contract@.wf(),
    {
        let contract = Contract {
            license: "CC BY-NC-SA".to_owned(),
            authors: Vec::new(),
            reviewers: Vec::new(),
            submissions: Vec::new(),
            open_submission: false,
        };
        proof {
            assert(contract@.authors =~= Seq::<Seq<char>>::empty());
            assert(contract@.reviewers =~= Seq::<ReviewerView>::empty());
            assert(contract@.submissions =~= Seq::<SubmissionView>::empty());
        }
        contract
    }

    /// The license.
    pub fn get_license(&self) -> (license: String)
        ensures
            license@ == self@.license,
    {
        self.license.clone()
    }

    /// Sets the license.
    pub fn set_license(&mut self, license: String)
        ensures
            final(self)@ == (ContractView { license: license@, ..old(self)@ }),
            old(self)@.wf() ==> final(self)@.wf(),
    {
        self.license = license;
    }

    /// Lets those who are no registered authors submit, or stops them.
    pub fn set_open_submission(&mut self, open: bool)
        ensures
            final(self)@ == (ContractView { open_submission: open, ..old(self)@ }),
            old(self)@.wf() ==> final(self)@.wf(),
    {
        self.open_submission = open;
    }

    /// Registers an author. A name that is registered already is registered
    /// once more.
    pub fn add_author(&mut self, author: String)
        ensures
            final(self)@ == (ContractView { authors: old(self)@.authors.push(author@), ..old(self)@ }),
            old(self)@.wf() ==> final(self)@.wf(),
    {
        self.authors.push(author);
        proof {
            assert(self@.authors =~= old(self)@.authors.push(author@));
        }
    }

    /// Registers a referee with their keywords. A name that is registered
    /// already is registered once more, with keywords of its own.
    pub fn add_reviewer(&mut self, name: String, keywords: Vec<String>)
        ensures
            final(self)@ == (ContractView {
                reviewers: old(self)@.reviewers.push(
                    ReviewerView { name: name@, keywords: keywords.deep_view() },
                ),
                ..old(self)@
            }),
            old(self)@.wf() ==> final(self)@.wf(),
    {
        self.reviewers.push(Reviewer { name, keywords });
        proof {
            assert(self@.reviewers =~= old(self)@.reviewers.push(
                ReviewerView { name: name@, keywords: keywords.deep_view() },
            ));
        }
    }

    /// The score of `keywords` on `data`: how many of them stand in it.
    pub fn count_keywords_in_submission(&self, data: String, keywords: Vec<String>) -> (score: u32)
        ensures
            score == keyword_score(data@, keywords.deep_view()),
    {
        score_keywords(data.as_str(), &keywords)
    }

    /// The best referees on `data`, each with their score, the best first:
    /// as many as a panel has at most.
    pub fn count_keywords_for_all_reviewers(&self, data: String) -> (ranking: Vec<(String, u32)>)
        ensures
            is_ranking(data@, self@.reviewers, PANEL_SIZE as int, ranking.deep_view()),
            ranking@.len() <= PANEL_SIZE,
            ranking@.len() <= self@.reviewers.len(),
    {
        rank(data.as_str(), &self.reviewers, PANEL_SIZE)
    }

    /// Extends the keywords of the referee named `name` by `new_keywords`,
    /// on behalf of `caller`: a referee alone extends their own keywords.
    /// Where the name is registered more than once, the first registration
    /// is extended.
    pub fn add_keywords_to_reviewer(&mut self, caller: &str, name: String, new_keywords: Vec<String>) -> (outcome:
        Outcome)
        ensures
            outcome == old(self)@.add_keywords_outcome(caller@, name@),
            final(self)@ == old(self)@.after_add_keywords(caller@, name@, new_keywords.deep_view()),
            old(self)@.wf() ==> final(self)@.wf(),
    {
        if !same_text(caller, name.as_str()) {
            return Outcome::Rejected(Rejection::Unauthorized);
        }
        match find_reviewer(&self.reviewers, name.as_str()) {
            None => Outcome::Rejected(Rejection::ReviewerNotFound),
            Some(i) => {
                let mut added = new_keywords;
                self.reviewers[i].keywords.append(&mut added);
                proof {
                    lemma_first_reviewer(old(self)@.reviewers, name@);
                    let wanted = old(self)@.after_add_keywords(
                        caller@,
                        name@,
                        new_keywords.deep_view(),
                    );
                    assert(self@.reviewers[i as int].keywords =~= wanted.reviewers[i as int].keywords);
                    assert(self@.reviewers =~= wanted.reviewers);
                }
                Outcome::Applied
            },
        }
    }

    /// Appends a submission of `data` by `caller`, with the best referees
    /// on `data` as its suggested panel, and returns its id: the number of
    /// submissions before it. One who is not a registered author is turned
    /// down unless open submission is switched on.
    pub fn submit_data(&mut self, caller: String, data: String) -> (result: Result<u64, Rejection>)
        ensures
            match result {
                Ok(id) => {
                    &&& old(self)@.may_submit(caller@)
                    &&& id == old(self)@.submissions.len()
                    &&& old(self)@.submitted(caller@, data@, final(self)@)
                },
                Err(rejection) => {
                    &&& rejection == Rejection::Unauthorized
                    &&& !old(self)@.may_submit(caller@)
                    &&& final(self)@ == old(self)@
                },
            },
            old(self)@.wf() ==> final(self)@.wf(),
    {
        if !self.open_submission && !contains_name(&self.authors, caller.as_str()) {
            return Err(Rejection::Unauthorized);
        }
        let ranking = rank(data.as_str(), &self.reviewers, PANEL_SIZE);
        let count: usize = ranking.len();
        let mut suggested: Vec<String> = Vec::new();
        let mut j: usize = 0;
        while j < count
            invariant
                count == ranking@.len(),
                j <= count,
                suggested@.len() == j,
                forall|t: int| 0 <= t < j ==> suggested.deep_view()[t] == ranking.deep_view()[t].0,
            decreases count - j,
        {
            let name = ranking[j].0.clone();
            let ghost before = suggested.deep_view();
            suggested.push(name);
            proof {
                assert forall|t: int| 0 <= t < j + 1 implies suggested.deep_view()[t]
                    == ranking.deep_view()[t].0 by {
                    if t < j {
                        assert(suggested.deep_view()[t] == before[t]);
                    }
                }
            }
            j += 1;
        }
        let ghost panel = suggested.deep_view();
        let id: u64 = self.submissions.len() as u64;
        self.submissions.push(Submission::new(id, caller, data, suggested));
        proof {
            let fresh = SubmissionView::fresh(id, caller@, data@, panel);
            assert(self@.submissions =~= old(self)@.submissions.push(fresh));
            assert(self@.submissions.last() == fresh);
            assert(is_suggestion(data@, old(self)@.reviewers, panel));
        }
        Ok(id)
    }

    /// Commits the referee to `vote` under `secret` on the submission `id`:
    /// while the voting is open, and once for each referee.
    pub fn commit_vote(&mut self, submission_id: u64, reviewer: String, vote: String, secret: String) -> (result:
        Result<Outcome, Error>)
        ensures
            !old(self)@.has_submission(submission_id) ==> result == Err::<Outcome, Error>(
                Error::NotFound,
            ) && final(self)@ == old(self)@,
            old(self)@.has_submission(submission_id) ==> {
                let before = old(self)@.submissions[submission_id as int];
                &&& result == Ok::<Outcome, Error>(before.commit_vote_outcome(reviewer@))
                &&& final(self)@ == old(self)@.with_submission(
                    submission_id,
                    before.after_commit_vote(reviewer@, commitment(vote@, secret@)),
                )
            },
            old(self)@.wf() ==> final(self)@.wf(),
    {
        if submission_id >= self.submissions.len() as u64 {
            return Err(Error::NotFound);
        }
        let at: usize = submission_id as usize;
        let commit = commit_to(vote.as_str(), secret.as_str());
        let outcome = self.submissions[at].commit_vote(reviewer, commit);
        proof {
            assert(self@.submissions =~= old(self)@.submissions.update(
                at as int,
                self.submissions@[at as int]@,
            ));
            lemma_changed_submission(old(self)@, self@, submission_id);
        }
        Ok(outcome)
    }

    /// Ends the voting on the submission `id`, if the committed votes are
    /// exactly a quorum.
    pub fn end_voting(&mut self, submission_id: u64) -> (result: Result<Outcome, Error>)
        ensures
            !old(self)@.has_submission(submission_id) ==> result == Err::<Outcome, Error>(
                Error::NotFound,
            ) && final(self)@ == old(self)@,
            old(self)@.has_submission(submission_id) ==> {
                let before = old(self)@.submissions[submission_id as int];
                &&& result == Ok::<Outcome, Error>(before.end_voting_outcome())
                &&& final(self)@ == old(self)@.with_submission(submission_id, before.after_end_voting())
            },
            old(self)@.wf() ==> final(self)@.wf(),
    {
        if submission_id >= self.submissions.len() as u64 {
            return Err(Error::NotFound);
        }
        let at: usize = submission_id as usize;
        let outcome = self.submissions[at].end_voting();
        proof {
            assert(self@.submissions =~= old(self)@.submissions.update(
                at as int,
                self.submissions@[at as int]@,
            ));
            lemma_changed_submission(old(self)@, self@, submission_id);
        }
        Ok(outcome)
    }

    /// Records the vote that the referee reveals on the submission `id`, if
    /// the voting has ended and `vote` under `secret` is what the referee
    /// committed.
    pub fn reveal_vote(&mut self, submission_id: u64, reviewer: String, vote: String, secret: String) -> (result:
        Result<Outcome, Error>)
        ensures
            !old(self)@.has_submission(submission_id) ==> result == Err::<Outcome, Error>(
                Error::NotFound,
            ) && final(self)@ == old(self)@,
            old(self)@.has_submission(submission_id) ==> {
                let before = old(self)@.submissions[submission_id as int];
                let recomputed = commitment(vote@, secret@);
                &&& result == Ok::<Outcome, Error>(before.reveal_vote_outcome(reviewer@, recomputed))
                &&& final(self)@ == old(self)@.with_submission(
                    submission_id,
                    before.after_reveal_vote(reviewer@, vote@, recomputed),
                )
            },
            old(self)@.wf() ==> final(self)@.wf(),
    {
        if submission_id >= self.submissions.len() as u64 {
            return Err(Error::NotFound);
        }
        let at: usize = submission_id as usize;
        let recomputed = commit_to(vote.as_str(), secret.as_str());
        proof {
            assert(is_commitment_to(recomputed@, vote@));
        }
        let outcome = self.submissions[at].reveal_vote(reviewer, vote, recomputed.as_str());
        proof {
            assert(self@.submissions =~= old(self)@.submissions.update(
                at as int,
                self.submissions@[at as int]@,
            ));
            lemma_changed_submission(old(self)@, self@, submission_id);
        }
        Ok(outcome)
    }

    /// Commits the referee to `comment` under `secret` on the submission
    /// `id`, while the voting is open.
    pub fn commit_comment(&mut self, submission_id: u64, reviewer: String, comment: String, secret: String) -> (result:
        Result<Outcome, Error>)
        ensures
            !old(self)@.has_submission(submission_id) ==> result == Err::<Outcome, Error>(
                Error::NotFound,
            ) && final(self)@ == old(self)@,
            old(self)@.has_submission(submission_id) ==> {
                let before = old(self)@.submissions[submission_id as int];
                &&& result == Ok::<Outcome, Error>(before.commit_comment_outcome())
                &&& final(self)@ == old(self)@.with_submission(
                    submission_id,
                    before.after_commit_comment(reviewer@, commitment(comment@, secret@)),
                )
            },
            old(self)@.wf() ==> final(self)@.wf(),
    {
        if submission_id >= self.submissions.len() as u64 {
            return Err(Error::NotFound);
        }
        let at: usize = submission_id as usize;
        let commit = commit_to(comment.as_str(), secret.as_str());
        let outcome = self.submissions[at].commit_comment(reviewer, commit);
        proof {
            assert(self@.submissions =~= old(self)@.submissions.update(
                at as int,
                self.submissions@[at as int]@,
            ));
            lemma_changed_submission(old(self)@, self@, submission_id);
        }
        Ok(outcome)
    }

    /// Records the comment that the referee reveals on the submission `id`,
    /// if the voting has ended and `comment` under `secret` is what the
    /// referee committed first.
    pub fn reveal_comment(&mut self, submission_id: u64, reviewer: String, comment: String, secret: String) -> (result:
        Result<Outcome, Error>)
        ensures
            !old(self)@.has_submission(submission_id) ==> result == Err::<Outcome, Error>(
                Error::NotFound,
            ) && final(self)@ == old(self)@,
            old(self)@.has_submission(submission_id) ==> {
                let before = old(self)@.submissions[submission_id as int];
                let recomputed = commitment(comment@, secret@);
                &&& result == Ok::<Outcome, Error>(
                    before.reveal_comment_outcome(reviewer@, recomputed),
                )
                &&& final(self)@ == old(self)@.with_submission(
                    submission_id,
                    before.after_reveal_comment(reviewer@, comment@, recomputed),
                )
            },
            old(self)@.wf() ==> final(self)@.wf(),
    {
        if submission_id >= self.submissions.len() as u64 {
            return Err(Error::NotFound);
        }
        let at: usize = submission_id as usize;
        let recomputed = commit_to(comment.as_str(), secret.as_str());
        proof {
            assert(is_commitment_to(recomputed@, comment@));
        }
        let outcome = self.submissions[at].reveal_comment(reviewer, comment, recomputed.as_str());
        proof {
            assert(self@.submissions =~= old(self)@.submissions.update(
                at as int,
                self.submissions@[at as int]@,
            ));
            lemma_changed_submission(old(self)@, self@, submission_id);
        }
        Ok(outcome)
    }

    /// Decides the submission `id`, once the voting on it has ended: it is
    /// accepted if every revealed vote is for acceptance.
    pub fn finalize_submission(&mut self, submission_id: u64) -> (result: Result<Outcome, Error>)
        ensures
            !old(self)@.has_submission(submission_id) ==> result == Err::<Outcome, Error>(
                Error::NotFound,
            ) && final(self)@ == old(self)@,
            old(self)@.has_submission(submission_id) ==> {
                let before = old(self)@.submissions[submission_id as int];
                &&& result == Ok::<Outcome, Error>(before.finalize_outcome())
                &&& final(self)@ == old(self)@.with_submission(submission_id, before.after_finalize())
            },
            old(self)@.wf() ==> final(self)@.wf(),
    {
        if submission_id >= self.submissions.len() as u64 {
            return Err(Error::NotFound);
        }
        let at: usize = submission_id as usize;
        let outcome = self.submissions[at].finalize();
        proof {
            assert(self@.submissions =~= old(self)@.submissions.update(
                at as int,
                self.submissions@[at as int]@,
            ));
            lemma_changed_submission(old(self)@, self@, submission_id);
        }
        Ok(outcome)
    }

    /// The contents of the accepted submissions, in the order of their ids.
    pub fn get_accepted_submissions(&self) -> (contents: Vec<String>)
        ensures
            contents.deep_view() == accepted_contents(self@.submissions),
    {
        let n: usize = self.submissions.len();
        let ghost all = self@.submissions;
        let mut contents: Vec<String> = Vec::new();
        let mut i: usize = 0;
        proof {
            assert(contents.deep_view() =~= accepted_contents(all.take(0)));
        }
        while i < n
            invariant
                n == self.submissions@.len(),
                all == self@.submissions,
                i <= n,
                contents.deep_view() == accepted_contents(all.take(i as int)),
            decreases n - i,
        {
            proof {
                assert(all.take(i + 1).drop_last() =~= all.take(i as int));
                assert(all.take(i + 1).last() == self.submissions@[i as int]@);
            }
            let ghost before = contents.deep_view();
            match self.submissions[i].accepted {
                Some(true) => {
                    let content = self.submissions[i].response.clone();
                    contents.push(content);
                    proof {
                        assert(contents.deep_view() =~= before.push(content@));
                    }
                },
                _ => {},
            }
            i += 1;
        }
        proof {
            assert(all.take(n as int) =~= all);
        }
        contents
    }
}

impl Default for Contract {
    /// A new ledger.
    fn default() -> (contract: Contract)
        ensures
            contract@ == ContractView::initial(),
            contract@.wf(),
    {
        Contract::new()
    }
}

/// Where one submission of a ledger has changed, kept its id and stayed
/// well-formed, the ledger has stayed well-formed.
proof fn lemma_changed_submission(before: ContractView, after: ContractView, id: u64)
    requires
        before.has_submission(id),
        after == before.with_submission(id, after.submissions[id as int]),
        after.submissions[id as int].submission_id == before.submissions[id as int].submission_id,
        before.submissions[id as int].wf() ==> after.submissions[id as int].wf(),
    ensures
        before.wf() ==> after.wf(),
{
}

} // verus!
