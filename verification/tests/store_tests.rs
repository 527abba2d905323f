use slink::errors::StoreError;
use slink::ledger::Ledger;
use slink::links::LinkDir;
use slink::perms::{FsTree, OwnerIds};
use slink::resolve::resolve_file_spec;
use slink::store::{add_file, add_file_with_identifier, remove_file, share_file, unshare_file,
    StoreState};

const SECRET: &str = "server-secret";
const HASH_BYTES: usize = 7;

fn fresh_state() -> StoreState {
    StoreState { ledger: Ledger::new(), links: LinkDir::new() }
}

fn op() -> OwnerIds {
    OwnerIds { uid: 1000, gid: 1000 }
}

fn svc() -> OwnerIds {
    OwnerIds { uid: 33, gid: 33 }
}

// The digest of an empty byte stream, as the ingest path would compute it.
fn empty_digest() -> String {
    blake3::hash(b"").to_hex().to_string()
}

fn entry_tree(identifier: &str, filename: &str) -> FsTree {
    FsTree::Dir {
        name: identifier.to_string(),
        owner: op(),
        mode: 0o700,
        children: vec![FsTree::File { name: filename.to_string(), owner: op(), mode: 0o600 }],
    }
}

#[test]
fn end_to_end_share_cycle() {
    let mut state = fresh_state();

    // Add a 0-byte file named a.txt: the identifier is a well-formed
    // 36-character UUID string and a ledger row records the filename.
    let (ident, plan) = add_file(&mut state, "a.txt", &empty_digest(), 100, svc(), op()).unwrap();
    assert_eq!(ident.identifier.len(), 36);
    assert!(uuid::Uuid::parse_str(&ident.identifier).is_ok());
    assert_eq!(ident.filename, "a.txt");
    assert!(!plan.is_empty());
    let listed = state.ledger.find_by_name("a.txt");
    assert_eq!(listed.len(), 1);
    assert_eq!(listed[0].0, ident.identifier);

    // Share with bob: the token has the 7-byte encoded length of 10
    // characters and the link resolves to the identifier.
    let (token, _acts) =
        share_file(&mut state, &ident.identifier, "bob", SECRET, HASH_BYTES, 200).unwrap();
    assert_eq!(token.len(), 10);
    assert_eq!(state.links.resolve(&token), Some(ident.identifier.clone()));

    // Unshare from bob: the link is gone and the grant row is revoked with
    // a non-null revocation date.
    unshare_file(&mut state, &ident.identifier, "bob", SECRET, HASH_BYTES, 300).unwrap();
    assert_eq!(state.links.resolve(&token), None);
    let shares = state.ledger.shares_for(&ident.identifier);
    assert_eq!(shares.len(), 1);
    assert_eq!(shares[0].recipient, "bob");
    assert!(!shares[0].active);
    assert_eq!(shares[0].date_removed, Some(300));

    // A second file of the same name: listing by name shows both, and a
    // bare name no longer resolves until an index is given.
    let (ident2, _) = add_file(&mut state, "a.txt", &empty_digest(), 400, svc(), op()).unwrap();
    assert_ne!(ident.identifier, ident2.identifier);
    let listed = state.ledger.find_by_name("a.txt");
    assert_eq!(listed.len(), 2);
    assert_eq!(resolve_file_spec(&state.ledger, "a.txt"), Err(StoreError::AmbiguousSpecifier));
    assert_eq!(resolve_file_spec(&state.ledger, "a.txt/1").unwrap(), ident.identifier);
    assert_eq!(resolve_file_spec(&state.ledger, "a.txt/2").unwrap(), ident2.identifier);

    // Share the first file again, leave the link in place, and remove the
    // file with confirmation: the row and the never-unshared link both go.
    let (token2, _) =
        share_file(&mut state, &ident.identifier, "carol", SECRET, HASH_BYTES, 500).unwrap();
    assert!(state.links.has_token(&token2));
    let tree = entry_tree(&ident.identifier, "a.txt");
    let plan = remove_file(&mut state, &tree, &ident.identifier, true, op(), 600)
        .unwrap()
        .expect("confirmed removal returns a plan");
    assert_eq!(plan.link_actions.len(), 1);
    assert!(!plan.perm_steps.is_empty());
    assert!(!state.ledger.has_file(&ident.identifier));
    assert!(!state.links.has_token(&token2));
    assert_eq!(state.ledger.find_by_name("a.txt").len(), 1);
    let shares = state.ledger.shares_for(&ident.identifier);
    assert!(shares.iter().all(|s| !s.active && s.date_removed.is_some()));
}

#[test]
fn share_unshare_rederive_has_no_link() {
    let mut state = fresh_state();
    let (ident, _) = add_file(&mut state, "doc.pdf", &empty_digest(), 1, svc(), op()).unwrap();
    let (token, _) =
        share_file(&mut state, &ident.identifier, "bob", SECRET, HASH_BYTES, 2).unwrap();
    unshare_file(&mut state, &ident.identifier, "bob", SECRET, HASH_BYTES, 3).unwrap();
    let again =
        slink::token::derive_token(&ident.identifier, "bob", SECRET, HASH_BYTES).unwrap();
    assert_eq!(again, token);
    assert!(!state.links.has_token(&again));
}

#[test]
fn sharing_twice_replaces_the_grant() {
    let mut state = fresh_state();
    let (ident, _) = add_file(&mut state, "doc.pdf", &empty_digest(), 1, svc(), op()).unwrap();
    let (t1, _) = share_file(&mut state, &ident.identifier, "bob", SECRET, HASH_BYTES, 2).unwrap();
    let (t2, _) = share_file(&mut state, &ident.identifier, "bob", SECRET, HASH_BYTES, 5).unwrap();
    assert_eq!(t1, t2);
    let shares = state.ledger.shares_for(&ident.identifier);
    assert_eq!(shares.len(), 1);
    assert!(shares[0].active);
    assert_eq!(shares[0].date_shared, 5);
    assert_eq!(state.links.entries.len(), 1);
}

#[test]
fn share_unknown_identifier_is_not_found() {
    let mut state = fresh_state();
    let r = share_file(&mut state, "no-such-id", "bob", SECRET, HASH_BYTES, 1);
    assert!(matches!(r, Err(StoreError::NotFound)));
}

#[test]
fn share_with_bad_configuration_fails() {
    let mut state = fresh_state();
    let (ident, _) = add_file(&mut state, "doc.pdf", &empty_digest(), 1, svc(), op()).unwrap();
    assert!(matches!(
        share_file(&mut state, &ident.identifier, "bob", "", HASH_BYTES, 2),
        Err(StoreError::ConfigurationError)
    ));
    assert!(matches!(
        share_file(&mut state, &ident.identifier, "bob", SECRET, 1, 2),
        Err(StoreError::ConfigurationError)
    ));
}

#[test]
fn add_rejects_invalid_names() {
    let mut state = fresh_state();
    let r = add_file(&mut state, "../evil", &empty_digest(), 1, svc(), op());
    assert!(matches!(r, Err(StoreError::InvalidFilename)));
    assert_eq!(state.ledger.find_by_name("evil").len(), 0);
}

#[test]
fn identifier_collision_is_fatal() {
    let mut state = fresh_state();
    add_file_with_identifier(&mut state, "fixed-id", "a.txt", &empty_digest(), 1, svc(), op())
        .unwrap();
    let r = add_file_with_identifier(
        &mut state,
        "fixed-id",
        "b.txt",
        &empty_digest(),
        2,
        svc(),
        op(),
    );
    assert!(matches!(r, Err(StoreError::DuplicateIdentifier)));
}

#[test]
fn unconfirmed_removal_is_a_silent_noop() {
    let mut state = fresh_state();
    let (ident, _) = add_file(&mut state, "a.txt", &empty_digest(), 1, svc(), op()).unwrap();
    let tree = entry_tree(&ident.identifier, "a.txt");
    let r = remove_file(&mut state, &tree, &ident.identifier, false, op(), 2).unwrap();
    assert!(r.is_none());
    assert!(state.ledger.has_file(&ident.identifier));
}

#[test]
fn removing_unknown_identifier_is_not_found() {
    let mut state = fresh_state();
    let tree = entry_tree("missing", "a.txt");
    let r = remove_file(&mut state, &tree, "missing", true, op(), 2);
    assert!(matches!(r, Err(StoreError::NotFound)));
}

#[test]
fn resolver_handles_identifiers_names_and_indices() {
    let mut state = fresh_state();
    let (ident, _) = add_file(&mut state, "a.txt", &empty_digest(), 1, svc(), op()).unwrap();

    // A 36-character four-hyphen specifier passes through unchanged.
    assert_eq!(
        resolve_file_spec(&state.ledger, &ident.identifier).unwrap(),
        ident.identifier
    );
    // A unique name resolves without an index.
    assert_eq!(resolve_file_spec(&state.ledger, "a.txt").unwrap(), ident.identifier);
    assert_eq!(resolve_file_spec(&state.ledger, "a.txt/1").unwrap(), ident.identifier);
    // Whatever addresses nothing is NotFound.
    assert_eq!(resolve_file_spec(&state.ledger, "missing"), Err(StoreError::NotFound));
    assert_eq!(resolve_file_spec(&state.ledger, "a.txt/0"), Err(StoreError::NotFound));
    assert_eq!(resolve_file_spec(&state.ledger, "a.txt/2"), Err(StoreError::NotFound));
    assert_eq!(resolve_file_spec(&state.ledger, "a.txt/x"), Err(StoreError::NotFound));
    assert_eq!(resolve_file_spec(&state.ledger, "a/b/c"), Err(StoreError::NotFound));
}

#[test]
fn identity_resolution_errors_when_a_name_is_unknown() {
    assert_eq!(
        slink::perms::resolve_ids(None, Some(33)),
        Err(StoreError::IdentityResolutionError)
    );
    assert_eq!(
        slink::perms::resolve_ids(Some(33), None),
        Err(StoreError::IdentityResolutionError)
    );
    assert_eq!(
        slink::perms::resolve_ids(Some(33), Some(44)),
        Ok(OwnerIds { uid: 33, gid: 44 })
    );
}
