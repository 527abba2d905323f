use vstd::prelude::*;
use crate::errors::StoreError;
use crate::filename::{filename_ok, sanitize_filename, trimmed};
use crate::ledger::{
    file_not_id, files_has, Ledger, ledger_wf, FileRowV, revoke_of, revoke_one_of, share_not_key,
    ShareRowV,
};
use crate::links::{
    link_actions_view, LinkAction, LinkDir, links_wf, pairs_has_token, spec_publish, spec_sweep,
    spec_withdraw, LinkActionV, lemma_withdraw_removes,
};
use crate::perms::{
    lockdown_plan, OwnerIds, PermStep, plan_lockdown, plan_reclaim, reclaim_plan, steps_view,
    FsTree, TreeV,
};
use crate::token::{derive_token, spec_token};

verus! {

/// The mode a settled store directory carries: owner and group may enter,
/// the group may not write, others see nothing.
pub const STORE_DIR_MODE: u32 = 0o750;

/// The mode a settled stored file carries: owner read-write, group
/// read-only.
pub const STORE_FILE_MODE: u32 = 0o640;

/// The store's durable state as the library models it: the ledger rows and
/// the live capability links.
pub struct StoreState {
    pub ledger: Ledger,
    pub links: LinkDir,
}

/// Both halves well-formed: unique ledger keys, unique link names.
pub open spec fn state_wf(s: StoreState) -> bool {
    ledger_wf(s.ledger@) && links_wf(s.links@)
}

/// Nothing observable moved: both models are as they were.
pub open spec fn state_unchanged(a: StoreState, b: StoreState) -> bool {
    a.ledger@ == b.ledger@ && a.links@ == b.links@
}

/// The durable identity of one stored file.
pub struct FileIdentity {
    pub identifier: String,
    pub filename: String,
    pub created: i64,
    pub digest: String,
}

/// Everything a removal asks of the filesystem: the links to delete and the
/// reclaim steps to run before the entry directory is deleted.
pub struct RemovalPlan {
    pub link_actions: Vec<LinkAction>,
    pub perm_steps: Vec<PermStep>,
}

/// A lowercase hexadecimal digit.
pub open spec fn is_lower_hex(c: char) -> bool {
    let u = c as u32;
    (0x30 <= u <= 0x39) || (0x61 <= u <= 0x66)
}

/// The canonical 36-character hyphenated form of a 128-bit identifier.
pub open spec fn is_uuid_string(s: Seq<char>) -> bool {
    s.len() == 36 && forall|i: int|
        0 <= i < 36 ==> if i == 8 || i == 13 || i == 18 || i == 23 {
            (#[trigger] s[i]) == '-'
        } else {
            is_lower_hex(s[i])
        }
}

/// Relies on uuid::Uuid::new_v4 and its display form: a fresh random
/// version-4 identifier rendered as 36 hyphenated lowercase hex characters.
/// The value is random, so only its shape is promised.
#[verifier::external_body]
fn fresh_uuid_string() -> (r: String)
    ensures
        is_uuid_string(r@),
{
    uuid::Uuid::new_v4().to_string()
}

/// The model tree of one fresh store entry: a directory named by the
/// identifier holding exactly the one sanitized file.
pub open spec fn spec_entry_tree(
    identifier: Seq<char>,
    filename: Seq<char>,
    op: OwnerIds,
) -> TreeV {
    TreeV::Dir {
        name: identifier,
        owner: op,
        mode: 0o700,
        children: seq![TreeV::File { name: filename, owner: op, mode: 0o600 }],
    }
}

/// Ingest a file under a caller-chosen identifier: sanitize the name,
/// record the row, and plan the privilege transition of the fresh entry.
/// The caller copies the content to `identifier/filename` under the base
/// directory and then runs the steps in order.
pub fn add_file_with_identifier(
    state: &mut StoreState,
    identifier: &str,
    raw_name: &str,
    digest: &str,
    now: i64,
    svc: OwnerIds,
    op: OwnerIds,
) -> (r: Result<(FileIdentity, Vec<PermStep>), StoreError>)
    requires
        state_wf(*old(state)),
    ensures
        state_wf(*final(state)),
        !filename_ok(trimmed(raw_name@)) ==> (r matches Err(e) && e == StoreError::InvalidFilename
            && state_unchanged(*final(state), *old(state))),
        filename_ok(trimmed(raw_name@)) && files_has(old(state).ledger@.files, identifier@)
            ==> (r matches Err(e) && e == StoreError::DuplicateIdentifier && state_unchanged(
            *final(state),
            *old(state),
        )),
        filename_ok(trimmed(raw_name@)) && !files_has(old(state).ledger@.files, identifier@) ==> (
        r matches Ok(p) && {
            let (ident, plan) = p;
            &&& ident.identifier@ == identifier@
            &&& ident.filename@ == trimmed(raw_name@)
            &&& ident.created == now
            &&& ident.digest@ == digest@
            &&& final(state).ledger@.files == old(state).ledger@.files.push(
                FileRowV {
                    identifier: identifier@,
                    filename: trimmed(raw_name@),
                    date_added: now as int,
                },
            )
            &&& final(state).ledger@.shares == old(state).ledger@.shares
            &&& final(state).links@ == old(state).links@
            &&& steps_view(plan@) == lockdown_plan(
                spec_entry_tree(identifier@, trimmed(raw_name@), op),
                Seq::empty(),
                STORE_DIR_MODE,
                STORE_FILE_MODE,
                svc,
                op,
            )
        }),
{
    let filename = match sanitize_filename(raw_name) {
        Ok(f) => f,
        Err(e) => {
            return Err(e);
        },
    };
    match state.ledger.insert_file(identifier, filename.as_str(), now) {
        Ok(()) => {},
        Err(e) => {
            return Err(e);
        },
    }
    let mut children: Vec<FsTree> = Vec::new();
    children.push(FsTree::File { name: filename.clone(), owner: op, mode: 0o600 });
    let tree = FsTree::Dir {
        name: identifier.to_owned(),
        owner: op,
        mode: 0o700,
        children,
    };
    proof {
        crate::perms::lemma_tree_views_index(children@);
        assert(crate::perms::tree_views(children@) =~= seq![
            TreeV::File { name: trimmed(raw_name@), owner: op, mode: 0o600 },
        ]);
        assert(tree@ =~~= spec_entry_tree(identifier@, trimmed(raw_name@), op));
    }
    let plan = plan_lockdown(&tree, STORE_DIR_MODE, STORE_FILE_MODE, svc, op);
    let ident = FileIdentity {
        identifier: identifier.to_owned(),
        filename,
        created: now,
        digest: digest.to_owned(),
    };
    Ok((ident, plan))
}

/// Ingest a file under a freshly drawn random identifier. Fails with
/// `InvalidFilename` exactly when the name does not sanitize; a drawn
/// identifier already in the ledger is a collision, reported as
/// `DuplicateIdentifier` with nothing changed.
pub fn add_file(
    state: &mut StoreState,
    raw_name: &str,
    digest: &str,
    now: i64,
    svc: OwnerIds,
    op: OwnerIds,
) -> (r: Result<(FileIdentity, Vec<PermStep>), StoreError>)
    requires
        state_wf(*old(state)),
    ensures
        state_wf(*final(state)),
        r matches Err(e) ==> (state_unchanged(*final(state), *old(state)) && (e == StoreError::InvalidFilename
            || e == StoreError::DuplicateIdentifier)),
        r is Err && !filename_ok(trimmed(raw_name@)) ==> (r matches Err(e) && e
            == StoreError::InvalidFilename),
        !filename_ok(trimmed(raw_name@)) ==> r is Err,
        r matches Ok(p) ==> {
            let (ident, plan) = p;
            &&& filename_ok(trimmed(raw_name@))
            &&& is_uuid_string(ident.identifier@)
            &&& ident.filename@ == trimmed(raw_name@)
            &&& ident.created == now
            &&& ident.digest@ == digest@
            &&& final(state).ledger@.files == old(state).ledger@.files.push(
                FileRowV {
                    identifier: ident.identifier@,
                    filename: trimmed(raw_name@),
                    date_added: now as int,
                },
            )
            &&& final(state).ledger@.shares == old(state).ledger@.shares
            &&& final(state).links@ == old(state).links@
            &&& steps_view(plan@) == lockdown_plan(
                spec_entry_tree(ident.identifier@, trimmed(raw_name@), op),
                Seq::empty(),
                STORE_DIR_MODE,
                STORE_FILE_MODE,
                svc,
                op,
            )
        },
{
    let identifier = fresh_uuid_string();
    add_file_with_identifier(state, identifier.as_str(), raw_name, digest, now, svc, op)
}

/// Grant a recipient a capability over a stored file: derive the token,
/// publish the link (replacing any prior link under that token), and record
/// the grant, replacing the pair's previous grant. Returns the token and
/// the link mutations to mirror.
pub fn share_file(
    state: &mut StoreState,
    identifier: &str,
    recipient: &str,
    secret: &str,
    hash_bytes: usize,
    now: i64,
) -> (r: Result<(String, Vec<LinkAction>), StoreError>)
    requires
        state_wf(*old(state)),
    ensures
        state_wf(*final(state)),
        !(2 <= hash_bytes <= 32) || secret@.len() == 0 ==> (r matches Err(e) && e
            == StoreError::ConfigurationError && state_unchanged(*final(state), *old(state))),
        2 <= hash_bytes <= 32 && secret@.len() > 0 && !files_has(
            old(state).ledger@.files,
            identifier@,
        ) ==> (r matches Err(e) && e == StoreError::NotFound && state_unchanged(*final(state), *old(state))),
        2 <= hash_bytes <= 32 && secret@.len() > 0 && files_has(
            old(state).ledger@.files,
            identifier@,
        ) ==> (r matches Ok(p) && {
            let (token, acts) = p;
            let t = spec_token(identifier@, recipient@, secret@, hash_bytes as int);
            &&& token@ == t
            &&& final(state).links@ == spec_publish(old(state).links@, t, identifier@)
            &&& pairs_has_token(final(state).links@, t)
            &&& final(state).ledger@.files == old(state).ledger@.files
            &&& final(state).ledger@.shares == old(state).ledger@.shares.filter(
                share_not_key(identifier@, recipient@),
            ).push(
                ShareRowV {
                    identifier: identifier@,
                    recipient: recipient@,
                    token: t,
                    date_shared: now as int,
                    date_removed: None,
                    active: true,
                },
            )
            &&& (pairs_has_token(old(state).links@, t) ==> link_actions_view(acts@) == seq![
                LinkActionV::Remove { token: t },
                LinkActionV::Create { token: t, target: identifier@ },
            ])
            &&& (!pairs_has_token(old(state).links@, t) ==> link_actions_view(acts@) == seq![
                LinkActionV::Create { token: t, target: identifier@ },
            ])
        }),
{
    let token = match derive_token(identifier, recipient, secret, hash_bytes) {
        Ok(t) => t,
        Err(e) => {
            return Err(e);
        },
    };
    if !state.ledger.has_file(identifier) {
        return Err(StoreError::NotFound);
    }
    let acts = state.links.publish(token.as_str(), identifier);
    state.ledger.upsert_share(identifier, recipient, token.as_str(), now);
    proof {
        let published = spec_publish(old(state).links@, token@, identifier@);
        assert(published[published.len() - 1].0 == token@);
    }
    Ok((token, acts))
}

/// Revoke a recipient's capability: re-derive the exact token, withdraw its
/// link (absence is a no-op), and mark the grant revoked. After this call
/// no link carries the pair's token.
pub fn unshare_file(
    state: &mut StoreState,
    identifier: &str,
    recipient: &str,
    secret: &str,
    hash_bytes: usize,
    now: i64,
) -> (r: Result<Vec<LinkAction>, StoreError>)
    requires
        state_wf(*old(state)),
    ensures
        state_wf(*final(state)),
        !(2 <= hash_bytes <= 32) || secret@.len() == 0 ==> (r matches Err(e) && e
            == StoreError::ConfigurationError && state_unchanged(*final(state), *old(state))),
        2 <= hash_bytes <= 32 && secret@.len() > 0 && !files_has(
            old(state).ledger@.files,
            identifier@,
        ) ==> (r matches Err(e) && e == StoreError::NotFound && state_unchanged(*final(state), *old(state))),
        2 <= hash_bytes <= 32 && secret@.len() > 0 && files_has(
            old(state).ledger@.files,
            identifier@,
        ) ==> (r matches Ok(acts) && {
            let t = spec_token(identifier@, recipient@, secret@, hash_bytes as int);
            &&& final(state).links@ == spec_withdraw(old(state).links@, t)
            &&& !pairs_has_token(final(state).links@, t)
            &&& final(state).ledger@.files == old(state).ledger@.files
            &&& final(state).ledger@.shares == old(state).ledger@.shares.map_values(
                revoke_one_of(identifier@, recipient@, now as int),
            )
            &&& (pairs_has_token(old(state).links@, t) ==> link_actions_view(acts@) == seq![
                LinkActionV::Remove { token: t },
            ])
            &&& (!pairs_has_token(old(state).links@, t) ==> acts@.len() == 0)
        }),
{
    let token = match derive_token(identifier, recipient, secret, hash_bytes) {
        Ok(t) => t,
        Err(e) => {
            return Err(e);
        },
    };
    if !state.ledger.has_file(identifier) {
        return Err(StoreError::NotFound);
    }
    let acts = state.links.withdraw(token.as_str());
    state.ledger.deactivate_share(identifier, recipient, now);
    proof {
        lemma_withdraw_removes(old(state).links@, token@);
    }
    Ok(acts)
}

/// Remove a stored file. Declined confirmation is a silent no-op. Otherwise
/// every link pointing at the identifier is swept — whether or not its
/// grant was ever revoked — the entry tree is reclaimed for deletion, all
/// grants are marked revoked, and the file row is dropped. `tree` is the
/// entry's on-disk tree, rooted at the identifier directory.
pub fn remove_file(
    state: &mut StoreState,
    tree: &FsTree,
    identifier: &str,
    confirmed: bool,
    op: OwnerIds,
    now: i64,
) -> (r: Result<Option<RemovalPlan>, StoreError>)
    requires
        state_wf(*old(state)),
        tree@.entry_name() == identifier@,
    ensures
        state_wf(*final(state)),
        !confirmed ==> (r matches Ok(p) && p is None && state_unchanged(*final(state), *old(state))),
        confirmed && !files_has(old(state).ledger@.files, identifier@) ==> (r matches Err(e) && e
            == StoreError::NotFound && state_unchanged(*final(state), *old(state))),
        confirmed && files_has(old(state).ledger@.files, identifier@) ==> (r matches Ok(po)
            && po matches Some(plan) && {
            &&& final(state).links@ == spec_sweep(old(state).links@, identifier@)
            &&& link_actions_view(plan.link_actions@) == old(state).links@.filter(
                crate::links::at_target(identifier@),
            ).map_values(crate::links::removal_of())
            &&& steps_view(plan.perm_steps@) == reclaim_plan(tree@, Seq::empty(), op)
            &&& final(state).ledger@.shares == old(state).ledger@.shares.map_values(
                revoke_of(identifier@, now as int),
            )
            &&& final(state).ledger@.files == old(state).ledger@.files.filter(
                file_not_id(identifier@),
            )
            &&& !files_has(final(state).ledger@.files, identifier@)
        }),
{
    if !confirmed {
        return Ok(None);
    }
    if !state.ledger.has_file(identifier) {
        return Err(StoreError::NotFound);
    }
    let link_actions = state.links.sweep_by_target(identifier);
    let perm_steps = plan_reclaim(tree, op);
    state.ledger.deactivate_shares_for(identifier, now);
    state.ledger.delete_file(identifier);
    proof {
        broadcast use vstd::seq_lib::group_filter_ensures;

        let remaining = state.ledger@.files;
        assert forall|i: int| 0 <= i < remaining.len() implies (#[trigger] remaining[i]).identifier
            != identifier@ by {
            old(state).ledger@.files.lemma_filter_pred(file_not_id(identifier@), i);
        }
    }
    Ok(Some(RemovalPlan { link_actions, perm_steps }))
}

/// Law: sharing and then unsharing the same file with the same recipient
/// leaves no live link under the pair's token. Because derivation is
/// deterministic, the token the share published is the very token the
/// unshare withdrew.
pub proof fn lemma_share_unshare_leaves_no_link(
    ps: Seq<(Seq<char>, Seq<char>)>,
    identifier: Seq<char>,
    recipient: Seq<char>,
    secret: Seq<char>,
    length: int,
)
    ensures
        !pairs_has_token(
            spec_withdraw(
                spec_publish(ps, spec_token(identifier, recipient, secret, length), identifier),
                spec_token(identifier, recipient, secret, length),
            ),
            spec_token(identifier, recipient, secret, length),
        ),
{
    lemma_withdraw_removes(
        spec_publish(ps, spec_token(identifier, recipient, secret, length), identifier),
        spec_token(identifier, recipient, secret, length),
    );
}

} // verus!
