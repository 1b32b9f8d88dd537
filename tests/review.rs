use yes_or_no::{ContractError, YesOrNoContract};

fn accounts(index: usize) -> String {
    ["alice", "bob", "charlie", "danny", "eugene", "fargo"][index].to_string()
}

#[test]
fn test_create_review() {
    let mut contract = YesOrNoContract::new();
    let signer = accounts(1);

    let item_id = contract
        .create_review(
            String::from("title"),
            Option::Some(String::from("desc")),
            Option::Some(String::from("https://github.com")),
            signer.clone(),
        )
        .unwrap();

    contract.review(item_id, true, &signer).unwrap();
    let item = &contract.get_item(item_id).unwrap();

    assert_eq!(item.active.len(), 1);
    assert_eq!(item.negative.len(), 0);

    contract.review(item_id, false, &signer).unwrap();
    let item = &contract.get_item(item_id).unwrap();
    assert_eq!(item.active.len(), 0);
    assert_eq!(item.negative.len(), 1);
}

#[test]
fn test_illegal_id() {
    let mut contract = YesOrNoContract::new();
    let id = near_sdk::env::sha256_array(b"");
    assert_eq!(contract.review(id, false, &accounts(1)), Err(ContractError::ItemNotFound));
    assert!(matches!(contract.get_item(id), Err(ContractError::ItemNotFound)));
}

#[test]
fn approving_twice_counts_once() {
    let mut c = YesOrNoContract::new();
    let id = c.create_review("t".to_string(), None, None, "init".to_string()).unwrap();
    let who = "rev".to_string();
    c.review(id, true, &who).unwrap();
    c.review(id, true, &who).unwrap();
    let item = c.get_item(id).unwrap();
    assert_eq!(item.active, vec![who.clone()]);
    assert_eq!(item.negative.len(), 0);
}

#[test]
fn reviews_of_several_callers() {
    let mut c = YesOrNoContract::new();
    let id = c.create_review("t".to_string(), Some("d".to_string()), None, "init".to_string()).unwrap();
    c.review(id, true, &"r1".to_string()).unwrap();
    c.review(id, false, &"r2".to_string()).unwrap();
    c.review(id, true, &"r3".to_string()).unwrap();
    c.review(id, false, &"r1".to_string()).unwrap();
    c.review(id, false, &"r1".to_string()).unwrap();
    let item = c.get_item(id).unwrap();
    assert_eq!(item.active, vec!["r3".to_string()]);
    assert_eq!(item.negative, vec!["r2".to_string(), "r1".to_string()]);
    assert_eq!(item.title, "t");
    assert_eq!(item.desc, Some("d".to_string()));
    assert_eq!(item.initiator, "init");
}

#[test]
fn duplicate_item_is_refused() {
    let mut c = YesOrNoContract::new();
    let a = c.create_review("t".to_string(), None, Some("l".to_string()), "init".to_string()).unwrap();
    let r = c.create_review("t".to_string(), None, Some("l".to_string()), "init".to_string());
    assert_eq!(r, Err(ContractError::DuplicateItem));
    let b = c.create_review("t".to_string(), None, Some("l".to_string()), "other".to_string()).unwrap();
    assert_ne!(a, b);
}
