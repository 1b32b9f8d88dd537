use yes_or_no::identity::{get_content_id, is_valid_account};
use yes_or_no::{ContractError, InputVote, VoteId, YesOrNoContract};

const TEST_TITLE: &str = "test";

fn accounts(index: usize) -> String {
    ["alice", "bob", "charlie", "danny", "eugene", "fargo"][index].to_string()
}

fn get_legal_vote(range: std::ops::Range<usize>) -> InputVote {
    InputVote {
        title: TEST_TITLE.to_string(),
        desc: None,
        link: None,
        active: false,
        threshold: 2,
        thinking: range.map(accounts).collect(),
    }
}

fn input(title: &str, threshold: u64, members: &[&str]) -> InputVote {
    InputVote {
        title: title.to_string(),
        desc: None,
        link: None,
        active: true,
        threshold,
        thinking: members.iter().map(|m| m.to_string()).collect(),
    }
}

#[test]
fn test_crate_vote() {
    let mut contract = YesOrNoContract::new();

    let input_vote = get_legal_vote(0..3);
    let vote_id = contract.create_vote(input_vote, accounts(1), 1_000).unwrap();

    let vote = contract.get_vote(vote_id).expect("test error:no such vote");

    assert_eq!(vote.title, TEST_TITLE);
    let alice = accounts(1);
    assert_eq!(vote.initiator, alice);

    // the first two affirmative ballots reach the threshold of two
    (0..2).for_each(|temp| {
        let who = accounts(temp);
        assert_eq!(contract.get_active_vote_list(0, 10, &who).len(), 1);
        assert_eq!(contract.get_finish_vote_list(0, 10, &who).len(), 0);

        contract.vote(vote_id, true, &who, 2_000 + temp as u64).unwrap();

        assert_eq!(contract.get_active_vote_list(0, 10, &who).len(), 0);
        assert_eq!(contract.get_finish_vote_list(0, 10, &who).len(), 1);
    });

    // the proposal is resolved: the third ballot is refused and changes nothing
    let charlie = accounts(2);
    assert_eq!(contract.vote(vote_id, true, &charlie, 3_000), Err(ContractError::ProposalClosed));
    assert_eq!(contract.get_active_vote_list(0, 10, &charlie).len(), 1);
    assert_eq!(contract.get_finish_vote_list(0, 10, &charlie).len(), 0);

    let vote = contract.get_vote(vote_id).unwrap();

    assert_eq!(vote.count, 2);
    assert_eq!(vote.active, false);
    assert_eq!(vote.finish.len(), 2);
    assert_eq!(vote.thinking.len(), 1);
    assert!(vote.count >= vote.threshold);
    assert_eq!(vote.finish_time.unwrap(), 2_001);
}

#[test]
fn test_vote() {
    let mut contract = YesOrNoContract::new();

    let input_vote = get_legal_vote(0..3);
    let vote_id = contract.create_vote(input_vote, accounts(0), 1).unwrap();

    contract.vote(vote_id, true, &accounts(0), 2).unwrap();

    let finish_vec = contract.get_finish_vote_list(0, 10, &accounts(0));
    let active_vec = contract.get_active_vote_list(0, 10, &accounts(0));
    assert_eq!(finish_vec.len(), 1);
    assert_eq!(active_vec.len(), 0);
}

#[test]
fn test_crate_vote_repeat() {
    let mut contract = YesOrNoContract::new();

    let input_vote = get_legal_vote(0..3);
    let first = contract.create_vote(input_vote, accounts(0), 1);
    assert!(first.is_ok());

    let input_vote = get_legal_vote(0..3);
    assert_eq!(contract.create_vote(input_vote, accounts(0), 2), Err(ContractError::DuplicateProposal));
    // the pending entries were not duplicated
    assert_eq!(contract.get_active_vote_list(0, 10, &accounts(1)).len(), 1);
}

#[test]
fn pass_at_threshold_then_closed() {
    let mut c = YesOrNoContract::new();
    let id = c.create_vote(input("p", 2, &["a1", "b1", "c1"]), "init".to_string(), 10).unwrap();
    c.vote(id, true, &"a1".to_string(), 11).unwrap();
    let v = c.get_vote(id).unwrap();
    assert_eq!(v.count, 1);
    assert!(v.active);
    assert_eq!(v.finish_time, None);
    c.vote(id, true, &"b1".to_string(), 12).unwrap();
    let v = c.get_vote(id).unwrap();
    assert_eq!(v.count, 2);
    assert!(!v.active);
    assert_eq!(v.finish_time, Some(12));
    assert_eq!(c.vote(id, false, &"c1".to_string(), 13), Err(ContractError::ProposalClosed));
    assert_eq!(c.get_vote(id).unwrap().thinking, vec!["c1".to_string()]);
}

#[test]
fn fail_once_threshold_unreachable() {
    let mut c = YesOrNoContract::new();
    let id = c.create_vote(input("p", 3, &["a1", "b1", "c1"]), "init".to_string(), 10).unwrap();
    c.vote(id, false, &"a1".to_string(), 11).unwrap();
    let v = c.get_vote(id).unwrap();
    assert_eq!(v.thinking.len(), 2);
    assert_eq!(v.count, 0);
    assert!(!v.active);
    assert_eq!(v.finish_time, Some(11));
    assert_eq!(c.vote(id, true, &"b1".to_string(), 12), Err(ContractError::ProposalClosed));
    assert_eq!(c.vote(id, true, &"c1".to_string(), 13), Err(ContractError::ProposalClosed));
    let v = c.get_vote(id).unwrap();
    assert_eq!(v.finish.len(), 1);
    assert_eq!(v.thinking.len(), 2);
}

#[test]
fn stays_active_while_threshold_reachable() {
    let mut c = YesOrNoContract::new();
    let id = c.create_vote(input("p", 2, &["a1", "b1", "c1"]), "init".to_string(), 10).unwrap();
    // 2 pending + 0 yes = 2, not below 2
    c.vote(id, false, &"a1".to_string(), 11).unwrap();
    assert!(c.get_vote(id).unwrap().active);
    // 1 pending + 0 yes = 1 < 2
    c.vote(id, false, &"b1".to_string(), 12).unwrap();
    let v = c.get_vote(id).unwrap();
    assert!(!v.active);
    assert_eq!(v.finish_time, Some(12));
}

#[test]
fn threshold_above_electorate_is_refused() {
    let mut c = YesOrNoContract::new();
    let r = c.create_vote(input("p", 5, &["a1", "b1", "c1"]), "init".to_string(), 10);
    assert_eq!(r, Err(ContractError::InvalidThreshold));
    assert_eq!(c.get_active_vote_list(0, 10, &"a1".to_string()).len(), 0);
    // nothing was created: the same content with a valid threshold is accepted
    let id = c.create_vote(input("p", 3, &["a1", "b1", "c1"]), "init".to_string(), 11);
    assert!(id.is_ok());
}

#[test]
fn empty_electorate_is_refused() {
    let mut c = YesOrNoContract::new();
    assert_eq!(c.create_vote(input("p", 0, &[]), "init".to_string(), 1), Err(ContractError::InvalidThreshold));
}

#[test]
fn malformed_member_is_refused() {
    let mut c = YesOrNoContract::new();
    let r = c.create_vote(input("p", 1, &["a1", "Bad!"]), "init".to_string(), 1);
    assert_eq!(r, Err(ContractError::InvalidElectorateMember));
    assert_eq!(c.get_active_vote_list(0, 10, &"a1".to_string()).len(), 0);
}

#[test]
fn zero_threshold_resolves_at_creation() {
    let mut c = YesOrNoContract::new();
    let id = c.create_vote(input("p", 0, &["a1", "b1"]), "init".to_string(), 7).unwrap();
    let v = c.get_vote(id).unwrap();
    assert!(!v.active);
    assert_eq!(v.finish_time, Some(7));
    assert_eq!(v.create_time, 7);
    assert_eq!(c.get_active_vote_list(0, 10, &"a1".to_string()).len(), 1);
    assert_eq!(c.vote(id, true, &"a1".to_string(), 8), Err(ContractError::ProposalClosed));
}

#[test]
fn repeated_names_count_once() {
    let mut c = YesOrNoContract::new();
    let r = c.create_vote(input("p", 3, &["a1", "a1", "b1"]), "init".to_string(), 1);
    assert_eq!(r, Err(ContractError::InvalidThreshold));
    let id = c.create_vote(input("p", 2, &["a1", "a1", "b1"]), "init".to_string(), 1).unwrap();
    let v = c.get_vote(id).unwrap();
    assert_eq!(v.thinking, vec!["a1".to_string(), "b1".to_string()]);
    assert_eq!(c.get_active_vote_list(0, 10, &"a1".to_string()).len(), 1);
}

#[test]
fn ballot_errors() {
    let mut c = YesOrNoContract::new();
    let id = c.create_vote(input("p", 2, &["a1", "b1"]), "init".to_string(), 1).unwrap();
    let other = c.create_vote(input("q", 1, &["d1"]), "init".to_string(), 1).unwrap();
    assert_ne!(id, other);
    assert_eq!(c.vote([7u8; 32], true, &"a1".to_string(), 2), Err(ContractError::ProposalNotFound));
    assert_eq!(c.vote(id, true, &"zed".to_string(), 2), Err(ContractError::VoterNotFound));
    // named in another proposal only
    assert_eq!(c.vote(id, true, &"d1".to_string(), 2), Err(ContractError::AlreadySettled));
    c.vote(id, false, &"a1".to_string(), 3).unwrap();
    assert_eq!(c.vote(id, true, &"a1".to_string(), 4), Err(ContractError::AlreadySettled));
    let v = c.get_vote(id).unwrap();
    assert_eq!(v.finish, vec![("a1".to_string(), false, 3)]);
    assert_eq!(v.count, 0);
}

#[test]
fn conservation_tally_and_mirroring() {
    let mut c = YesOrNoContract::new();
    let names = ["a1", "b1", "c1", "d1", "e1"];
    let id = c.create_vote(input("p", 4, &names), "init".to_string(), 1).unwrap();
    let second = c.create_vote(input("q", 1, &["b1", "f1"]), "init".to_string(), 2).unwrap();
    c.vote(id, true, &"b1".to_string(), 3).unwrap();
    c.vote(id, false, &"d1".to_string(), 4).unwrap();
    c.vote(id, true, &"a1".to_string(), 5).unwrap();
    let v = c.get_vote(id).unwrap();
    assert!(v.active);
    assert_eq!(v.thinking.len() + v.finish.len(), names.len());
    assert_eq!(v.count as usize, v.finish.iter().filter(|b| b.1).count());
    assert_eq!(v.count, 2);
    for n in names {
        let who = n.to_string();
        let pending = c.get_active_vote_list(0, 10, &who);
        let settled = c.get_finish_vote_list(0, 10, &who);
        let in_pending = pending.iter().any(|e| e.0 == id && e.1 == "p");
        assert_eq!(in_pending, v.thinking.contains(&who));
        for b in &v.finish {
            if b.0 == who {
                assert!(settled.contains(&(id, "p".to_string(), b.1, b.2)));
            }
        }
        assert_eq!(settled.iter().filter(|e| e.0 == id).count(), v.finish.iter().filter(|b| b.0 == who).count());
    }
    // the second proposal is untouched by ballots on the first
    let w = c.get_vote(second).unwrap();
    assert_eq!(w.thinking, vec!["b1".to_string(), "f1".to_string()]);
    assert_eq!(c.get_active_vote_list(0, 10, &"b1".to_string()), vec![(second, "q".to_string())]);
}

#[test]
fn pages_of_pending_and_settled() {
    let mut c = YesOrNoContract::new();
    let mut ids: Vec<VoteId> = Vec::new();
    for t in ["t0", "t1", "t2", "t3"] {
        ids.push(c.create_vote(input(t, 1, &["a1", "b1"]), "init".to_string(), 1).unwrap());
    }
    let who = "a1".to_string();
    let page = c.get_active_vote_list(1, 2, &who);
    assert_eq!(page, vec![(ids[1], "t1".to_string()), (ids[2], "t2".to_string())]);
    assert_eq!(c.get_active_vote_list(3, 10, &who), vec![(ids[3], "t3".to_string())]);
    assert_eq!(c.get_active_vote_list(2, u64::MAX, &who).len(), 2);
    assert_eq!(c.get_active_vote_list(0, 0, &who).len(), 0);
    // an offset past the end gives an empty page
    assert_eq!(c.get_active_vote_list(4, 10, &who).len(), 0);
    assert_eq!(c.get_active_vote_list(u64::MAX, u64::MAX, &who).len(), 0);
    assert_eq!(c.get_finish_vote_list(9, 1, &who).len(), 0);
    // an unknown account has empty lists
    assert_eq!(c.get_active_vote_list(0, 10, &"nobody".to_string()).len(), 0);

    c.vote(ids[2], true, &who, 50).unwrap();
    c.vote(ids[0], false, &who, 60).unwrap();
    assert_eq!(
        c.get_active_vote_list(0, 10, &who),
        vec![(ids[1], "t1".to_string()), (ids[3], "t3".to_string())]
    );
    assert_eq!(
        c.get_finish_vote_list(0, 10, &who),
        vec![(ids[2], "t2".to_string(), true, 50), (ids[0], "t0".to_string(), false, 60)]
    );
    assert_eq!(c.get_finish_vote_list(1, 1, &who), vec![(ids[0], "t0".to_string(), false, 60)]);
}

#[test]
fn identity_from_content() {
    let mut c1 = YesOrNoContract::new();
    let mut c2 = YesOrNoContract::new();
    let a = c1.create_vote(input("title", 1, &["a1"]), "init".to_string(), 1).unwrap();
    let b = c2.create_vote(input("title", 2, &["x1", "y1"]), "init".to_string(), 9).unwrap();
    assert_eq!(a, b);
    let other = c1.create_vote(input("title2", 1, &["a1"]), "init".to_string(), 1).unwrap();
    assert_ne!(a, other);
    let by_other = c1.create_vote(input("title", 1, &["a1"]), "init2".to_string(), 1).unwrap();
    assert_ne!(a, by_other);
    // a missing field hashes as an empty one
    let mut with_empty = input("title", 1, &["a1"]);
    with_empty.desc = Some(String::new());
    assert_eq!(c2.create_vote(with_empty, "init".to_string(), 3), Err(ContractError::DuplicateProposal));
}

#[test]
fn content_id_is_sha256_of_the_fields() {
    // SHA-256 of the bytes "bobtest"
    let expected: [u8; 32] = [
        129, 139, 112, 113, 22, 41, 19, 65, 131, 145, 20, 96, 144, 3, 235, 208, 102, 4, 96, 13, 90, 25, 217, 47, 178,
        150, 114, 89, 38, 7, 46, 63,
    ];
    let id = get_content_id(&"bob".to_string(), &"test".to_string(), &None, &None);
    assert_eq!(id, expected);
    let id2 = get_content_id(&"bo".to_string(), &"b".to_string(), &Some("te".to_string()), &Some("st".to_string()));
    assert_eq!(id2, expected);
    let mut c = YesOrNoContract::new();
    let vote_id = c.create_vote(get_legal_vote(0..3), "bob".to_string(), 1).unwrap();
    assert_eq!(vote_id, expected);
}

#[test]
fn account_id_validation() {
    assert!(is_valid_account(&"test.near".to_string()));
    assert!(is_valid_account(&"a-b_c.d1".to_string()));
    assert!(!is_valid_account(&"test!.%.near".to_string()));
    assert!(!is_valid_account(&"a".to_string()));
    assert!(!is_valid_account(&"-ab".to_string()));
    assert!(!is_valid_account(&"ab.".to_string()));
    assert!(!is_valid_account(&"a..b".to_string()));
    assert!(!is_valid_account(&"Alice".to_string()));
    assert!(is_valid_account(&"a".repeat(64)));
    assert!(!is_valid_account(&"a".repeat(65)));
}
