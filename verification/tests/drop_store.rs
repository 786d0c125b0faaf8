use paydrop::drops::DataDropContract;
use paydrop::errors::Error;

fn owner() -> String {
    "owner.near".to_string()
}

fn store() -> DataDropContract {
    DataDropContract::new(owner())
}

#[test]
fn scenario_issue_claim_once() {
    let owner = owner();
    let mut c = store();
    // first drop allocates id 1 and binds the content reference
    let id = c.add_drop(&owner, "docx".to_string(), "bafybeigabc".to_string()).unwrap();
    assert_eq!(id, 1);
    // a second drop files the record consulted by the claim below
    let id2 = c.add_drop(&owner, "doc1".to_string(), "bafybeiQQQ".to_string()).unwrap();
    assert_eq!(id2, 2);
    assert_eq!(c.add_drop_key(&owner, 1, "ed25519:AAA".to_string()), Ok(true));
    assert_eq!(c.get_keys(1).unwrap(), vec!["ed25519:AAA".to_string()]);
    let cid = c.claim("ed25519:AAA".to_string(), "doc1".to_string()).unwrap();
    assert_eq!(cid, "bafybeiQQQ");
    assert_eq!(c.get_keys(1).unwrap(), Vec::<String>::new());
    // the token was consumed: a second claim fails NotFound
    assert_eq!(
        c.claim("ed25519:AAA".to_string(), "doc1".to_string()),
        Err(Error::NotFound)
    );
    // and so does an explicit removal of the spent token
    assert_eq!(
        c.remove_key(&owner, "ed25519:AAA".to_string()),
        Err(Error::NotFound)
    );
}

#[test]
fn reissue_same_token_is_noop() {
    let owner = owner();
    let mut c = store();
    c.add_drop(&owner, "d".to_string(), "cid0".to_string()).unwrap();
    assert_eq!(c.add_drop_key(&owner, 1, "ed25519:K".to_string()), Ok(true));
    assert_eq!(c.add_drop_key(&owner, 1, "ed25519:K".to_string()), Ok(false));
    assert_eq!(c.get_keys(1).unwrap(), vec!["ed25519:K".to_string()]);
}

#[test]
fn reissue_on_other_drop_is_noop() {
    let owner = owner();
    let mut c = store();
    c.add_drop(&owner, "a".to_string(), "cid_a".to_string()).unwrap();
    c.add_drop(&owner, "b".to_string(), "cid_b".to_string()).unwrap();
    assert_eq!(c.add_drop_key(&owner, 1, "ed25519:K".to_string()), Ok(true));
    // the token already belongs to drop 1, so indexing it for drop 2 is absorbed
    assert_eq!(c.add_drop_key(&owner, 2, "ed25519:K".to_string()), Ok(false));
    assert_eq!(c.get_keys(1).unwrap(), vec!["ed25519:K".to_string()]);
    assert_eq!(c.get_keys(2).unwrap(), Vec::<String>::new());
}

#[test]
fn remove_drop_revokes_every_token() {
    let owner = owner();
    let mut c = store();
    c.add_drop(&owner, "d".to_string(), "cid0".to_string()).unwrap();
    c.add_drop_key(&owner, 1, "ed25519:A".to_string()).unwrap();
    c.add_drop_key(&owner, 1, "ed25519:B".to_string()).unwrap();
    let revoked = c.remove_drop(&owner, 1).unwrap();
    assert_eq!(revoked, vec!["ed25519:A".to_string(), "ed25519:B".to_string()]);
    // the drop is gone
    assert_eq!(c.get_keys(1), Err(Error::NotFound));
    assert!(c.get_drop(1).is_none());
    assert_eq!(c.get_drops(), Vec::<u128>::new());
    // every formerly-owned token now fails claim
    assert_eq!(
        c.claim("ed25519:A".to_string(), "d".to_string()),
        Err(Error::NotFound)
    );
    assert_eq!(
        c.claim("ed25519:B".to_string(), "d".to_string()),
        Err(Error::NotFound)
    );
}

#[test]
fn drop_ids_are_never_reused() {
    let owner = owner();
    let mut c = store();
    assert_eq!(c.add_drop(&owner, "a".to_string(), "cid_a".to_string()), Ok(1));
    assert_eq!(c.add_drop(&owner, "b".to_string(), "cid_b".to_string()), Ok(2));
    c.remove_drop(&owner, 2).unwrap();
    assert_eq!(c.last_drop_id(), 2);
    assert_eq!(c.add_drop(&owner, "c".to_string(), "cid_c".to_string()), Ok(3));
    assert_eq!(c.get_drops(), vec![1, 3]);
}

#[test]
fn claim_missing_record_returns_sentinel() {
    let owner = owner();
    let mut c = store();
    c.add_drop(&owner, "d".to_string(), "cid0".to_string()).unwrap();
    c.add_drop_key(&owner, 1, "ed25519:K".to_string()).unwrap();
    let payload = c.claim("ed25519:K".to_string(), "doc9".to_string()).unwrap();
    assert_eq!(payload, "CID not found for ID: doc9");
    // the soft failure still consumed the token
    assert_eq!(c.get_keys(1).unwrap(), Vec::<String>::new());
}

#[test]
fn owner_checks_fail_unauthorized() {
    let owner = owner();
    let stranger = "mallory.near".to_string();
    let mut c = store();
    c.add_drop(&owner, "d".to_string(), "cid0".to_string()).unwrap();
    c.add_drop_key(&owner, 1, "ed25519:K".to_string()).unwrap();
    assert_eq!(
        c.add_drop(&stranger, "e".to_string(), "cid1".to_string()),
        Err(Error::Unauthorized)
    );
    assert_eq!(
        c.add_drop_key(&stranger, 1, "ed25519:L".to_string()),
        Err(Error::Unauthorized)
    );
    assert_eq!(c.remove_drop(&stranger, 1), Err(Error::Unauthorized));
    assert_eq!(
        c.remove_key(&stranger, "ed25519:K".to_string()),
        Err(Error::Unauthorized)
    );
    // nothing changed
    assert_eq!(c.get_keys(1).unwrap(), vec!["ed25519:K".to_string()]);
    assert_eq!(c.get_drops(), vec![1]);
}

#[test]
fn empty_content_reference_is_rejected() {
    let owner = owner();
    let mut c = store();
    assert_eq!(
        c.add_drop(&owner, "d".to_string(), "".to_string()),
        Err(Error::InvalidArgument)
    );
    assert_eq!(c.get_drops(), Vec::<u128>::new());
    assert_eq!(c.last_drop_id(), 0);
}

#[test]
fn unknown_ids_fail_not_found() {
    let owner = owner();
    let mut c = store();
    assert_eq!(c.remove_drop(&owner, 7), Err(Error::NotFound));
    assert_eq!(c.get_keys(7), Err(Error::NotFound));
    assert!(c.get_drop(7).is_none());
    assert_eq!(
        c.add_drop_key(&owner, 7, "ed25519:K".to_string()),
        Err(Error::NotFound)
    );
    assert_eq!(
        c.claim("ed25519:K".to_string(), "d".to_string()),
        Err(Error::NotFound)
    );
}

#[test]
fn get_drop_returns_the_binding() {
    let owner = owner();
    let mut c = store();
    c.add_drop(&owner, "d".to_string(), "cid0".to_string()).unwrap();
    c.add_drop_key(&owner, 1, "ed25519:K".to_string()).unwrap();
    let d = c.get_drop(1).unwrap();
    assert_eq!(d.keys, vec!["ed25519:K".to_string()]);
    assert_eq!(d.data_cid, Some("cid0".to_string()));
}

#[test]
fn record_is_overwritten_on_rebind() {
    let owner = owner();
    let mut c = store();
    c.add_drop(&owner, "doc".to_string(), "old_cid".to_string()).unwrap();
    c.add_drop(&owner, "doc".to_string(), "new_cid".to_string()).unwrap();
    c.add_drop_key(&owner, 1, "ed25519:K".to_string()).unwrap();
    assert_eq!(
        c.claim("ed25519:K".to_string(), "doc".to_string()),
        Ok("new_cid".to_string())
    );
}
