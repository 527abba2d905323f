use slink::links::{LinkAction, LinkDir};
use slink::perms::{plan_lockdown, plan_reclaim, FsTree, OwnerIds, PermPhase};

fn op() -> OwnerIds {
    OwnerIds { uid: 1000, gid: 1000 }
}

fn svc() -> OwnerIds {
    OwnerIds { uid: 33, gid: 33 }
}

#[test]
fn publish_is_idempotent() {
    let mut d = LinkDir::new();
    d.publish("tok1", "id-a");
    let first: Vec<(String, String)> =
        d.entries.iter().map(|e| (e.token.clone(), e.target.clone())).collect();
    let acts = d.publish("tok1", "id-a");
    let second: Vec<(String, String)> =
        d.entries.iter().map(|e| (e.token.clone(), e.target.clone())).collect();
    assert_eq!(first, second);
    // The second publish replaces: a removal, then a creation.
    assert_eq!(acts.len(), 2);
    assert!(matches!(&acts[0], LinkAction::Remove { token } if token == "tok1"));
    assert!(matches!(&acts[1], LinkAction::Create { token, target } if token == "tok1" && target == "id-a"));
}

#[test]
fn publish_replaces_target() {
    let mut d = LinkDir::new();
    d.publish("tok1", "id-a");
    d.publish("tok1", "id-b");
    assert_eq!(d.entries.len(), 1);
    assert_eq!(d.resolve("tok1"), Some("id-b".to_string()));
}

#[test]
fn withdraw_absent_token_is_noop() {
    let mut d = LinkDir::new();
    d.publish("tok1", "id-a");
    let acts = d.withdraw("ghost");
    assert!(acts.is_empty());
    assert_eq!(d.entries.len(), 1);
    assert_eq!(d.resolve("tok1"), Some("id-a".to_string()));
}

#[test]
fn withdraw_removes_the_link() {
    let mut d = LinkDir::new();
    d.publish("tok1", "id-a");
    let acts = d.withdraw("tok1");
    assert_eq!(acts.len(), 1);
    assert_eq!(d.resolve("tok1"), None);
    assert!(!d.has_token("tok1"));
}

#[test]
fn sweep_removes_every_link_of_the_target() {
    let mut d = LinkDir::new();
    d.publish("t-bob", "id-a");
    d.publish("t-carol", "id-a");
    d.publish("t-other", "id-b");
    let acts = d.sweep_by_target("id-a");
    assert_eq!(acts.len(), 2);
    assert_eq!(d.entries.len(), 1);
    assert_eq!(d.resolve("t-other"), Some("id-b".to_string()));
    assert_eq!(d.resolve("t-bob"), None);
    assert_eq!(d.resolve("t-carol"), None);
}

fn sample_tree() -> FsTree {
    FsTree::Dir {
        name: "entry".to_string(),
        owner: op(),
        mode: 0o700,
        children: vec![
            FsTree::File { name: "a.txt".to_string(), owner: op(), mode: 0o600 },
            FsTree::Dir {
                name: "sub".to_string(),
                owner: op(),
                mode: 0o700,
                children: vec![FsTree::File {
                    name: "b.txt".to_string(),
                    owner: op(),
                    mode: 0o600,
                }],
            },
        ],
    }
}

#[test]
fn lockdown_plan_settles_directories_after_their_contents() {
    let plan = plan_lockdown(&sample_tree(), 0o750, 0o640, svc(), op());
    // First step prepares the root; the last settles it.
    let first = &plan[0];
    assert_eq!(first.path, vec!["entry".to_string()]);
    assert_eq!(first.phase, PermPhase::Prepare);
    assert_eq!(first.mode, 0o700);
    assert_eq!(first.owner, op());
    let last = &plan[plan.len() - 1];
    assert_eq!(last.path, vec!["entry".to_string()]);
    assert_eq!(last.phase, PermPhase::Settle);
    assert_eq!(last.mode, 0o750);
    assert_eq!(last.owner, svc());
    // No step under an already-settled directory: after the settle of any
    // path, no later step has that path as a strict prefix.
    for i in 0..plan.len() {
        if plan[i].phase == PermPhase::Settle {
            for j in (i + 1)..plan.len() {
                let anc = &plan[i].path;
                let desc = &plan[j].path;
                let strictly_under =
                    desc.len() > anc.len() && desc[..anc.len()] == anc[..];
                assert!(!strictly_under, "step {j} under settled {i}");
            }
        }
    }
    // Every file receives its settled mode.
    assert!(plan.iter().any(|s| s.phase == PermPhase::Settle
        && s.path == vec!["entry".to_string(), "a.txt".to_string()]
        && s.mode == 0o640
        && s.owner == svc()));
    assert!(plan.iter().any(|s| s.phase == PermPhase::Settle
        && s.path == vec!["entry".to_string(), "sub".to_string(), "b.txt".to_string()]
        && s.mode == 0o640));
}

#[test]
fn reclaim_plan_opens_ancestors_first_and_restores_0700() {
    let plan = plan_reclaim(&sample_tree(), op());
    // One step per entry, all operating-owned at 0700.
    assert_eq!(plan.len(), 4);
    for s in plan.iter() {
        assert_eq!(s.mode, 0o700);
        assert_eq!(s.owner, op());
        assert_eq!(s.phase, PermPhase::Prepare);
    }
    // No later step addresses an ancestor of an earlier one.
    for i in 0..plan.len() {
        for j in (i + 1)..plan.len() {
            let later = &plan[j].path;
            let earlier = &plan[i].path;
            let later_is_ancestor =
                later.len() < earlier.len() && earlier[..later.len()] == later[..];
            assert!(!later_is_ancestor);
        }
    }
    assert_eq!(plan[0].path, vec!["entry".to_string()]);
}
