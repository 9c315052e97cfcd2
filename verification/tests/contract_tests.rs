use peer_review::{
    Contract, Error, Outcome, Rejection, RevealedMap, Submission, SubmissionVote,
};

fn text(s: &str) -> String {
    s.to_string()
}

#[test]
fn add_author_success() {
    let mut contract = Contract::new();
    contract.add_author("snotty-body.testnet".to_string());
    assert_eq!(contract.authors.len(), 1);
    assert_eq!(contract.authors[0], "snotty-body.testnet");
}

#[test]
fn add_reviewer_success() {
    let mut contract = Contract::new();
    contract.add_reviewer(
        "quirky-sand.testnet".to_string(),
        vec!["rust".to_string(), "smart contract".to_string()],
    );
    assert_eq!(contract.reviewers.len(), 1);
    assert_eq!(contract.reviewers[0].name, "quirky-sand.testnet");
}

#[test]
fn get_default_license() {
    let contract = Contract::default();
    assert_eq!(contract.get_license(), "CC BY-NC-SA".to_string());
}

#[test]
fn add_keywords_to_reviewer_success() {
    let mut contract = Contract::new();
    contract.add_reviewer("dao-guru.testnet".to_string(), vec![]);
    // the caller is the one whose keywords are extended
    let outcome = contract.add_keywords_to_reviewer(
        "dao-guru.testnet",
        "dao-guru.testnet".to_string(),
        vec![
            "governance".to_string(),
            "voting".to_string(),
            "consensus".to_string(),
        ],
    );
    assert_eq!(outcome, Outcome::Applied);
    let reviewer = contract
        .reviewers
        .iter()
        .find(|r| r.name == "dao-guru.testnet");
    assert!(
        reviewer.is_some()
            && reviewer.unwrap().keywords == vec!["governance", "voting", "consensus"]
    );
}

#[test]
fn add_keywords_to_reviewer_not_found() {
    let mut contract = Contract::new();
    contract.add_keywords_to_reviewer(
        "alice",
        "nonexistent-referee.testnet".to_string(),
        vec!["governance".to_string()],
    );
    assert!(contract.reviewers.is_empty());
}

#[test]
fn add_keywords_to_reviewer_not_self() {
    let mut contract = Contract::new();
    contract.add_reviewer("dao-expert.testnet".to_string(), vec![]);
    // the caller is someone else
    let outcome = contract.add_keywords_to_reviewer(
        "bob",
        "dao-expert.testnet".to_string(),
        vec!["decentralization".to_string()],
    );
    assert_eq!(outcome, Outcome::Rejected(Rejection::Unauthorized));
    let reviewer = contract
        .reviewers
        .iter()
        .find(|r| r.name == "dao-expert.testnet");
    assert!(reviewer.is_none() || reviewer.unwrap().keywords.is_empty());
}

#[test]
fn test_count_keywords_in_submission() {
    let contract = Contract::new();
    let data = "This is a test submission containing keywords such as Rust, Blockchain, and Smart Contract.".to_string();
    let keywords = vec![
        "Rust".to_string(),
        "Blockchain".to_string(),
        "Smart Contract".to_string(),
        "Web3".to_string(),
    ];
    let count = contract.count_keywords_in_submission(data, keywords);
    assert_eq!(
        count, 3,
        "The count of keywords in the submission should be 3."
    );
}

#[test]
fn test_count_keywords_for_all_reviewers() {
    let mut contract = Contract::new();
    contract.add_author("author.testnet".to_string());
    contract.add_reviewer(
        "reviewer1.testnet".to_string(),
        vec!["rust".to_string(), "smart contract".to_string()],
    );
    contract.add_reviewer(
        "reviewer2.testnet".to_string(),
        vec!["blockchain".to_string(), "web3".to_string()],
    );
    contract.add_reviewer("reviewer3.testnet".to_string(), vec!["rust".to_string()]);
    contract.add_reviewer(
        "reviewer4.testnet".to_string(),
        vec!["smart contract".to_string(), "web3".to_string()],
    );

    assert_eq!(contract.reviewers.len(), 4, "Should have 4 referees added");

    let data = "This submission talks about rust and smart contracts in the context of blockchain and web3.".to_string();
    let id = contract.submit_data(text("author.testnet"), data.clone());
    assert_eq!(id, Ok(0));
    assert_eq!(contract.submissions.len(), 1);
    assert_eq!(contract.submissions[0].author, "author.testnet");
    let submission = contract.submissions.last().unwrap();
    let suggested_reviewers = &submission.suggested_reviewers;

    assert_eq!(
        suggested_reviewers.len(),
        3,
        "Should have 3 suggested referees"
    );
    let top_reviewers = contract.count_keywords_for_all_reviewers(data);
    let top_reviewer_names: Vec<String> =
        top_reviewers.into_iter().map(|(name, _)| name).collect();
    assert!(
        suggested_reviewers
            .iter()
            .all(|reviewer| top_reviewer_names.contains(reviewer)),
        "All suggested referees should be among the top referees"
    );
}

#[test]
fn commit_vote_success() {
    let mut contract = Contract::new();
    contract.add_author("author.testnet".to_string());
    contract
        .submit_data(text("author.testnet"), "Test submission".to_string())
        .unwrap();
    contract
        .commit_vote(
            0,
            "reviewer0.testnet".to_string(),
            "accept".to_string(),
            "secret".to_string(),
        )
        .unwrap();
    assert_eq!(
        contract.submissions[0].submission_votes.vote_commits.len(),
        1
    );
    assert_eq!(
        contract.submissions[0].submission_votes.vote_commits[0].reviewer,
        "reviewer0.testnet"
    );
}

#[test]
fn commit_vote_duplicate_vote() {
    let mut contract = Contract::new();
    contract.add_author("author.testnet".to_string());
    // the caller is no registered author: submission is opened to all
    contract.set_open_submission(true);
    contract
        .submit_data(text("alice"), "Test submission".to_string())
        .unwrap();
    let first = contract.commit_vote(
        0,
        "reviewer0.testnet".to_string(),
        "accept".to_string(),
        "secret".to_string(),
    );
    let second = contract.commit_vote(
        0,
        "reviewer0.testnet".to_string(),
        "reject".to_string(),
        "secret".to_string(),
    );
    assert_eq!(first, Ok(Outcome::Applied));
    assert_eq!(second, Ok(Outcome::Rejected(Rejection::DuplicateCommit)));
    assert_eq!(
        contract.submissions[0].submission_votes.vote_commits.len(),
        1
    );
}

#[test]
fn end_voting_success() {
    let mut contract = Contract::new();
    contract.add_author("author.testnet".to_string());
    contract
        .submit_data(
            text("author.testnet"),
            "Test submission for voting".to_string(),
        )
        .unwrap();
    for name in ["reviewer0.testnet", "reviewer1.testnet", "reviewer2.testnet"] {
        contract
            .commit_vote(
                0,
                name.to_string(),
                "accept".to_string(),
                "secret".to_string(),
            )
            .unwrap();
    }
    assert_eq!(contract.end_voting(0), Ok(Outcome::Applied));
    assert!(
        contract.submissions[0].voting_ended,
        "Voting should be marked as ended."
    );
}

#[test]
fn reveal_vote_success() {
    let mut contract = Contract::new();
    contract.add_author("author.testnet".to_string());
    contract
        .submit_data(
            text("author.testnet"),
            "Test submission for reveal".to_string(),
        )
        .unwrap();
    contract
        .commit_vote(
            0,
            "reviewer1.testnet".to_string(),
            "accept".to_string(),
            "secret123".to_string(),
        )
        .unwrap();
    for name in ["reviewer1.testnet", "reviewer2.testnet", "reviewer3.testnet"] {
        contract
            .commit_vote(
                0,
                name.to_string(),
                "accept".to_string(),
                "secret123".to_string(),
            )
            .unwrap();
    }
    contract.end_voting(0).unwrap();
    assert!(
        contract.submissions[0].voting_ended,
        "Voting should be marked as ended."
    );
    let outcome = contract.reveal_vote(
        0,
        "reviewer1.testnet".to_string(),
        "accept".to_string(),
        "secret123".to_string(),
    );
    assert_eq!(outcome, Ok(Outcome::Applied));
    assert_eq!(
        contract.submissions[0]
            .submission_votes
            .revealed_votes
            .get("reviewer1.testnet"),
        Some(&"accept".to_string()),
        "Vote should be revealed successfully."
    );
}

#[test]
fn commit_comment_success() {
    let mut contract = Contract::new();
    contract.add_author("author.testnet".to_string());
    contract
        .submit_data(
            text("author.testnet"),
            "Test submission for comment".to_string(),
        )
        .unwrap();
    contract
        .commit_comment(
            0,
            "reviewer1.testnet".to_string(),
            "Great proposal".to_string(),
            "secret123".to_string(),
        )
        .unwrap();
    assert_eq!(
        contract.submissions[0]
            .submission_votes
            .comment_commits
            .len(),
        1,
        "Comment should be committed successfully."
    );
}

#[test]
fn reveal_comment_success() {
    let mut contract = Contract::new();
    contract.add_author("author.testnet".to_string());
    contract
        .submit_data(
            text("author.testnet"),
            "Test submission for reveal comment".to_string(),
        )
        .unwrap();
    contract
        .commit_comment(
            0,
            "reviewer1.testnet".to_string(),
            "Insightful analysis".to_string(),
            "secret123".to_string(),
        )
        .unwrap();
    for name in ["reviewer1.testnet", "reviewer2.testnet", "reviewer3.testnet"] {
        contract
            .commit_vote(
                0,
                name.to_string(),
                "accept".to_string(),
                "secret123".to_string(),
            )
            .unwrap();
    }
    contract.end_voting(0).unwrap();
    assert!(
        contract.submissions[0].voting_ended,
        "Voting should be marked as ended."
    );
    contract
        .reveal_comment(
            0,
            "reviewer1.testnet".to_string(),
            "Insightful analysis".to_string(),
            "secret123".to_string(),
        )
        .unwrap();
    assert_eq!(
        contract.submissions[0]
            .submission_votes
            .revealed_comments
            .get("reviewer1.testnet"),
        Some(&"Insightful analysis".to_string()),
        "Comment should be revealed successfully."
    );
}

#[test]
fn finalize_submission_success() {
    let mut contract = Contract::new();
    contract.add_author("author.testnet".to_string());
    contract
        .submit_data(
            text("author.testnet"),
            "Test submission for finalization".to_string(),
        )
        .unwrap();
    for name in ["reviewer0.testnet", "reviewer1.testnet", "reviewer2.testnet"] {
        let reviewer = name.to_string();
        contract
            .commit_vote(
                0,
                reviewer.clone(),
                "accept".to_string(),
                "secret".to_string(),
            )
            .unwrap();
        contract
            .reveal_vote(0, reviewer, "accept".to_string(), "secret".to_string())
            .unwrap();
    }
    contract.end_voting(0).unwrap();
    contract.finalize_submission(0).unwrap();
    assert_eq!(
        contract.submissions[0].accepted,
        Some(true),
        "Submission should be accepted."
    );
}

#[test]
fn reveal_vote_incorrect_commit() {
    let mut contract = Contract::new();
    contract.add_author("author.testnet".to_string());
    contract
        .submit_data(
            text("author.testnet"),
            "Test submission for incorrect reveal".to_string(),
        )
        .unwrap();
    for name in ["reviewer1.testnet", "reviewer2.testnet", "reviewer3.testnet"] {
        contract
            .commit_vote(
                0,
                name.to_string(),
                "accept".to_string(),
                "secret123".to_string(),
            )
            .unwrap();
    }
    contract.end_voting(0).unwrap();
    assert!(
        contract.submissions[0].voting_ended,
        "Voting should be marked as ended."
    );
    let outcome = contract.reveal_vote(
        0,
        "reviewer1.testnet".to_string(),
        "reject".to_string(),
        "secret123".to_string(),
    );
    assert_eq!(outcome, Ok(Outcome::Rejected(Rejection::CommitMismatch)));
    assert!(
        contract.submissions[0]
            .submission_votes
            .revealed_votes
            .get("reviewer1.testnet")
            .is_none(),
        "Vote reveal should fail due to incorrect commit."
    );
}

#[test]
fn get_accepted_submissions_success() {
    let mut contract = Contract::new();
    contract.submissions.push(Submission {
        author: "author1.testnet".to_string(),
        response: "Accepted submission".to_string(),
        suggested_reviewers: vec![],
        submission_votes: SubmissionVote {
            submission_id: 0,
            vote_commits: vec![],
            revealed_votes: RevealedMap::new(),
            comment_commits: vec![],
            revealed_comments: RevealedMap::new(),
        },
        voting_ended: true,
        accepted: Some(true),
    });
    contract.submissions.push(Submission {
        author: "author2.testnet".to_string(),
        response: "Rejected submission".to_string(),
        suggested_reviewers: vec![],
        submission_votes: SubmissionVote {
            submission_id: 1,
            vote_commits: vec![],
            revealed_votes: RevealedMap::new(),
            comment_commits: vec![],
            revealed_comments: RevealedMap::new(),
        },
        voting_ended: true,
        accepted: Some(false),
    });
    contract.submissions.push(Submission {
        author: "author3.testnet".to_string(),
        response: "Undecided submission".to_string(),
        suggested_reviewers: vec![],
        submission_votes: SubmissionVote {
            submission_id: 2,
            vote_commits: vec![],
            revealed_votes: RevealedMap::new(),
            comment_commits: vec![],
            revealed_comments: RevealedMap::new(),
        },
        voting_ended: true,
        accepted: None,
    });
    let accepted_submissions = contract.get_accepted_submissions();
    assert_eq!(accepted_submissions.len(), 1);
    assert_eq!(accepted_submissions[0], "Accepted submission");
}

#[test]
fn submit_data_success() {
    let mut contract = Contract::new();
    contract.add_author("author.testnet".to_string());
    let id = contract.submit_data(text("author.testnet"), "Prompt: You are voting on a DAO proposal. What do you think of the team behind the proposal?

Example 1: Voter Response

\"I think this team is excellent. They have a great track record in the industry, and I've read their whitepapers outlining their experience with similar projects. Their communication has been clear, and they seem genuinely motivated to improve the DAO.\"

LLM Alignment Analysis: This reasoning demonstrates an understanding of factors relevant to assessing a team's competency and commitment.
Answer: Yes
Example 2: Voter Response

\"This team looks great because they all went to top universities. I like that they are always posting on social media, which makes them seem active and engaged.\"

LLM Alignment Analysis: This reasoning focuses on superficial factors that don't necessarily translate into a team's ability to execute a successful proposal.
Answer: No
Let me explain why:

Example 1 showcases good alignment because the voter prioritizes relevant metrics like experience, clear communication, and genuine motivation. These qualities are more likely to impact a team's ability to guide a proposal to success.
Example 2 demonstrates a misalignment because it relies on superficial indicators. University prestige and a social media presence don't guarantee a team's competence or dedication to the DAO's wellbeing.".to_string());
    assert_eq!(id, Ok(0));
    assert_eq!(contract.submissions.len(), 1);
    assert_eq!(contract.submissions[0].author, "author.testnet");
    assert_eq!(contract.submissions[0].response, "Prompt: You are voting on a DAO proposal. What do you think of the team behind the proposal?

Example 1: Voter Response

\"I think this team is excellent. They have a great track record in the industry, and I've read their whitepapers outlining their experience with similar projects. Their communication has been clear, and they seem genuinely motivated to improve the DAO.\"

LLM Alignment Analysis: This reasoning demonstrates an understanding of factors relevant to assessing a team's competency and commitment.
Answer: Yes
Example 2: Voter Response

\"This team looks great because they all went to top universities. I like that they are always posting on social media, which makes them seem active and engaged.\"

LLM Alignment Analysis: This reasoning focuses on superficial factors that don't necessarily translate into a team's ability to execute a successful proposal.
Answer: No
Let me explain why:

Example 1 showcases good alignment because the voter prioritizes relevant metrics like experience, clear communication, and genuine motivation. These qualities are more likely to impact a team's ability to guide a proposal to success.
Example 2 demonstrates a misalignment because it relies on superficial indicators. University prestige and a social media presence don't guarantee a team's competence or dedication to the DAO's wellbeing.");
}

#[test]
fn commit_vote_on_unknown_submission_is_not_found() {
    let mut contract = Contract::new();
    let result = contract.commit_vote(
        1,
        "reviewer0.testnet".to_string(),
        "accept".to_string(),
        "secret".to_string(),
    );
    assert_eq!(result, Err(Error::NotFound));
    assert!(contract.submissions.is_empty());
}

#[test]
fn reveal_vote_on_unknown_submission_is_not_found() {
    let mut contract = Contract::new();
    let result = contract.reveal_vote(
        1,
        "reviewer1.testnet".to_string(),
        "accept".to_string(),
        "secret123".to_string(),
    );
    assert_eq!(result, Err(Error::NotFound));
    assert!(contract.submissions.is_empty());
}
