use vstd::prelude::*;
use crate::errors::StoreError;

verus! {

/// Numeric owner of a filesystem entry: a user id and a group id.
#[derive(Clone, Copy, Debug, PartialEq, Eq, Structural)]
pub struct OwnerIds {
    pub uid: u32,
    pub gid: u32,
}

/// A directory tree as the transition planner sees it: names and structure,
/// together with the ownership and mode bits the model tracks.
pub enum FsTree {
    File { name: String, owner: OwnerIds, mode: u32 },
    Dir { name: String, owner: OwnerIds, mode: u32, children: Vec<FsTree> },
}

/// Mathematical form of a directory tree.
#[verifier::ext_equal]
pub enum TreeV {
    File { name: Seq<char>, owner: OwnerIds, mode: u32 },
    Dir { name: Seq<char>, owner: OwnerIds, mode: u32, children: Seq<TreeV> },
}

impl TreeV {
    pub open spec fn entry_name(self) -> Seq<char> {
        match self {
            TreeV::File { name, .. } => name,
            TreeV::Dir { name, .. } => name,
        }
    }
}

pub open spec fn tree_views(ts: Seq<FsTree>) -> Seq<TreeV>
    decreases ts,
{
    if ts.len() == 0 {
        Seq::empty()
    } else {
        seq![tree_view(ts[0])] + tree_views(ts.drop_first())
    }
}

pub open spec fn tree_view(t: FsTree) -> TreeV
    decreases t,
{
    match t {
        FsTree::File { name, owner, mode } => TreeV::File { name: name@, owner, mode },
        FsTree::Dir { name, owner, mode, children } => TreeV::Dir {
            name: name@,
            owner,
            mode,
            children: tree_views(children@),
        },
    }
}

impl View for FsTree {
    type V = TreeV;

    open spec fn view(&self) -> TreeV {
        tree_view(*self)
    }
}

pub proof fn lemma_tree_views_index(ts: Seq<FsTree>)
    ensures
        tree_views(ts).len() == ts.len(),
        forall|i: int| 0 <= i < ts.len() ==> tree_views(ts)[i] == tree_view(ts[i]),
    decreases ts,
{
    if ts.len() > 0 {
        lemma_tree_views_index(ts.drop_first());
    }
}

/// The tree after the forward transition: every entry owned by the service
/// identity, directories at `dir_mode`, plain files at `file_mode`.
pub open spec fn lockdown_tree(t: TreeV, dir_mode: u32, file_mode: u32, svc: OwnerIds) -> TreeV
    decreases t,
{
    match t {
        TreeV::File { name, .. } => TreeV::File { name, owner: svc, mode: file_mode },
        TreeV::Dir { name, children, .. } => TreeV::Dir {
            name,
            owner: svc,
            mode: dir_mode,
            children: lockdown_trees(children, dir_mode, file_mode, svc),
        },
    }
}

pub open spec fn lockdown_trees(ts: Seq<TreeV>, dir_mode: u32, file_mode: u32, svc: OwnerIds) -> Seq<
    TreeV,
>
    decreases ts,
{
    if ts.len() == 0 {
        Seq::empty()
    } else {
        seq![lockdown_tree(ts[0], dir_mode, file_mode, svc)] + lockdown_trees(
            ts.drop_first(),
            dir_mode,
            file_mode,
            svc,
        )
    }
}

/// The tree after the reverse transition: every entry owned by the operating
/// identity with mode 0700.
pub open spec fn reclaim_tree(t: TreeV, op: OwnerIds) -> TreeV
    decreases t,
{
    match t {
        TreeV::File { name, .. } => TreeV::File { name, owner: op, mode: 0o700 },
        TreeV::Dir { name, children, .. } => TreeV::Dir {
            name,
            owner: op,
            mode: 0o700,
            children: reclaim_trees(children, op),
        },
    }
}

pub open spec fn reclaim_trees(ts: Seq<TreeV>, op: OwnerIds) -> Seq<TreeV>
    decreases ts,
{
    if ts.len() == 0 {
        Seq::empty()
    } else {
        seq![reclaim_tree(ts[0], op)] + reclaim_trees(ts.drop_first(), op)
    }
}

/// Every entry of the tree, the root included, has the given owner and mode.
pub open spec fn all_entries_have(t: TreeV, owner: OwnerIds, mode: u32) -> bool
    decreases t,
{
    match t {
        TreeV::File { owner: o, mode: m, .. } => o == owner && m == mode,
        TreeV::Dir { owner: o, mode: m, children, .. } => o == owner && m == mode && forall|i: int|
            0 <= i < children.len() ==> all_entries_have(#[trigger] children[i], owner, mode),
    }
}

pub proof fn lemma_reclaim_trees_index(ts: Seq<TreeV>, op: OwnerIds)
    ensures
        reclaim_trees(ts, op).len() == ts.len(),
        forall|i: int| 0 <= i < ts.len() ==> reclaim_trees(ts, op)[i] == reclaim_tree(ts[i], op),
    decreases ts,
{
    if ts.len() > 0 {
        lemma_reclaim_trees_index(ts.drop_first(), op);
    }
}

/// Reclaiming restores operating-identity ownership and mode 0700 on every
/// entry, whatever state the tree was in.
pub proof fn lemma_reclaim_restores(t: TreeV, op: OwnerIds)
    ensures
        all_entries_have(reclaim_tree(t, op), op, 0o700),
    decreases t,
{
    match t {
        TreeV::File { .. } => {},
        TreeV::Dir { children, .. } => {
            lemma_reclaim_trees_index(children, op);
            assert forall|i: int|
                0 <= i < reclaim_tree(t, op)->Dir_children.len() implies all_entries_have(
                #[trigger] reclaim_tree(t, op)->Dir_children[i],
                op,
                0o700,
            ) by {
                lemma_reclaim_restores(children[i], op);
            }
        },
    }
}

/// Law: a lockdown followed by a reclaim of the same tree leaves every entry,
/// whatever the tree's depth, owned by the operating identity with mode 0700.
pub proof fn lemma_lockdown_then_reclaim(
    t: TreeV,
    dir_mode: u32,
    file_mode: u32,
    svc: OwnerIds,
    op: OwnerIds,
)
    ensures
        all_entries_have(reclaim_tree(lockdown_tree(t, dir_mode, file_mode, svc), op), op, 0o700),
{
    lemma_reclaim_restores(lockdown_tree(t, dir_mode, file_mode, svc), op);
}

/// A well-formed tree: no two siblings carry the same name, so a path of
/// names addresses at most one entry.
pub open spec fn tree_wf(t: TreeV) -> bool
    decreases t,
{
    match t {
        TreeV::File { .. } => true,
        TreeV::Dir { children, .. } => distinct_names(children) && forall|k: int|
            0 <= k < children.len() ==> tree_wf(#[trigger] children[k]),
    }
}

pub open spec fn distinct_names(ts: Seq<TreeV>) -> bool {
    forall|k1: int, k2: int|
        0 <= k1 < k2 < ts.len() ==> (#[trigger] ts[k1]).entry_name() != (
        #[trigger] ts[k2]).entry_name()
}

pub open spec fn seq_wf(ts: Seq<TreeV>) -> bool {
    forall|k: int| 0 <= k < ts.len() ==> tree_wf(#[trigger] ts[k])
}

/// The two stages of the ownership dance on one entry: first exclusive
/// operating-identity access, then the settled service-owned state.
#[derive(Clone, Copy, Debug, PartialEq, Eq, Structural)]
pub enum PermPhase {
    Prepare,
    Settle,
}

/// One planned mutation: set the entry at `path` (segments relative to the
/// store base) to `mode` and then to `owner`.
#[verifier::ext_equal]
pub struct PermStepV {
    pub path: Seq<Seq<char>>,
    pub phase: PermPhase,
    pub mode: u32,
    pub owner: OwnerIds,
}

/// Executable form of a planned permission step.
pub struct PermStep {
    pub path: Vec<String>,
    pub phase: PermPhase,
    pub mode: u32,
    pub owner: OwnerIds,
}

impl View for PermStep {
    type V = PermStepV;

    open spec fn view(&self) -> PermStepV {
        PermStepV { path: self.path.deep_view(), phase: self.phase, mode: self.mode, owner: self.owner }
    }
}

pub open spec fn steps_view(v: Seq<PermStep>) -> Seq<PermStepV> {
    v.map_values(|s: PermStep| s@)
}

/// The forward plan for the entry `t` standing under the directory path `at`:
/// grant the operating identity exclusive access on the way down, settle the
/// final service-owned state on the way back up, children before their
/// directory.
pub open spec fn lockdown_plan(
    t: TreeV,
    at: Seq<Seq<char>>,
    dir_mode: u32,
    file_mode: u32,
    svc: OwnerIds,
    op: OwnerIds,
) -> Seq<PermStepV>
    decreases t,
{
    match t {
        TreeV::File { name, .. } => {
            let p = at.push(name);
            seq![
                PermStepV { path: p, phase: PermPhase::Prepare, mode: 0o600, owner: op },
                PermStepV { path: p, phase: PermPhase::Settle, mode: file_mode, owner: svc },
            ]
        },
        TreeV::Dir { name, children, .. } => {
            let p = at.push(name);
            seq![PermStepV { path: p, phase: PermPhase::Prepare, mode: 0o700, owner: op }]
                + lockdown_plans(children, p, dir_mode, file_mode, svc, op)
                + seq![PermStepV { path: p, phase: PermPhase::Settle, mode: dir_mode, owner: svc }]
        },
    }
}

pub open spec fn lockdown_plans(
    ts: Seq<TreeV>,
    at: Seq<Seq<char>>,
    dir_mode: u32,
    file_mode: u32,
    svc: OwnerIds,
    op: OwnerIds,
) -> Seq<PermStepV>
    decreases ts,
{
    if ts.len() == 0 {
        Seq::empty()
    } else {
        lockdown_plan(ts[0], at, dir_mode, file_mode, svc, op) + lockdown_plans(
            ts.drop_first(),
            at,
            dir_mode,
            file_mode,
            svc,
            op,
        )
    }
}

/// The reverse plan: restore exclusive operating-identity access (mode 0700)
/// on every entry, each directory before anything below it, so the walk can
/// always descend.
pub open spec fn reclaim_plan(t: TreeV, at: Seq<Seq<char>>, op: OwnerIds) -> Seq<PermStepV>
    decreases t,
{
    match t {
        TreeV::File { name, .. } => {
            seq![
                PermStepV {
                    path: at.push(name),
                    phase: PermPhase::Prepare,
                    mode: 0o700,
                    owner: op,
                },
            ]
        },
        TreeV::Dir { name, children, .. } => {
            let p = at.push(name);
            seq![PermStepV { path: p, phase: PermPhase::Prepare, mode: 0o700, owner: op }]
                + reclaim_plans(children, p, op)
        },
    }
}

pub open spec fn reclaim_plans(ts: Seq<TreeV>, at: Seq<Seq<char>>, op: OwnerIds) -> Seq<PermStepV>
    decreases ts,
{
    if ts.len() == 0 {
        Seq::empty()
    } else {
        reclaim_plan(ts[0], at, op) + reclaim_plans(ts.drop_first(), at, op)
    }
}

/// `anc` addresses a strict ancestor of the entry `desc` addresses.
pub open spec fn strictly_under(anc: Seq<Seq<char>>, desc: Seq<Seq<char>>) -> bool {
    anc.len() < desc.len() && desc.take(anc.len() as int) == anc
}

/// No step below a directory comes after the step that settles that
/// directory: once an entry has its final restrictive state, nothing under it
/// is touched again.
pub open spec fn postorder_safe(plan: Seq<PermStepV>) -> bool {
    forall|i: int, j: int|
        #![trigger plan[i], plan[j]]
        0 <= i < j < plan.len() && plan[i].phase == PermPhase::Settle ==> !strictly_under(
            plan[i].path,
            plan[j].path,
        )
}

/// No step is an ancestor of an earlier step's entry: every directory is
/// opened before anything below it is visited.
pub open spec fn preorder_safe(plan: Seq<PermStepV>) -> bool {
    forall|i: int, j: int|
        #![trigger plan[i], plan[j]]
        0 <= i < j < plan.len() ==> !strictly_under(plan[j].path, plan[i].path)
}

/// Every step's path begins with `root`: the plan touches nothing outside the
/// subtree the plan was made for.
pub open spec fn steps_within(plan: Seq<PermStepV>, root: Seq<Seq<char>>) -> bool {
    forall|i: int|
        0 <= i < plan.len() ==> (#[trigger] plan[i]).path.len() >= root.len()
            && plan[i].path.take(root.len() as int) == root
}

proof fn lemma_take_take<A>(s: Seq<A>, m: int, n: int)
    requires
        0 <= m <= n <= s.len(),
    ensures
        s.take(n).take(m) == s.take(m),
{
    assert(s.take(n).take(m) =~= s.take(m));
}

proof fn lemma_postorder_append(a: Seq<PermStepV>, b: Seq<PermStepV>)
    requires
        postorder_safe(a),
        postorder_safe(b),
        forall|i: int, j: int|
            #![trigger a[i], b[j]]
            0 <= i < a.len() && 0 <= j < b.len() && a[i].phase == PermPhase::Settle
                ==> !strictly_under(a[i].path, b[j].path),
    ensures
        postorder_safe(a + b),
{
    assert forall|i: int, j: int|
        #![trigger (a + b)[i], (a + b)[j]]
        0 <= i < j < (a + b).len() && (a + b)[i].phase == PermPhase::Settle
            implies !strictly_under((a + b)[i].path, (a + b)[j].path) by {
        if i < a.len() && j < a.len() {
            assert((a + b)[i] == a[i] && (a + b)[j] == a[j]);
        } else if i < a.len() {
            assert((a + b)[i] == a[i] && (a + b)[j] == b[j - a.len()]);
        } else {
            assert((a + b)[i] == b[i - a.len()] && (a + b)[j] == b[j - a.len()]);
        }
    }
}

proof fn lemma_preorder_append(a: Seq<PermStepV>, b: Seq<PermStepV>)
    requires
        preorder_safe(a),
        preorder_safe(b),
        forall|i: int, j: int|
            #![trigger a[i], b[j]]
            0 <= i < a.len() && 0 <= j < b.len() ==> !strictly_under(b[j].path, a[i].path),
    ensures
        preorder_safe(a + b),
{
    assert forall|i: int, j: int|
        #![trigger (a + b)[i], (a + b)[j]]
        0 <= i < j < (a + b).len() implies !strictly_under((a + b)[j].path, (a + b)[i].path) by {
        if i < a.len() && j < a.len() {
            assert((a + b)[i] == a[i] && (a + b)[j] == a[j]);
        } else if i < a.len() {
            assert((a + b)[i] == a[i] && (a + b)[j] == b[j - a.len()]);
        } else {
            assert((a + b)[i] == b[i - a.len()] && (a + b)[j] == b[j - a.len()]);
        }
    }
}

/// Law: the forward plan settles a directory only after every step on its
/// descendants, so no observer ever finds an already-settled (restrictive,
/// service-owned) ancestor above an entry that is still being processed.
pub proof fn lemma_lockdown_plan_postorder(
    t: TreeV,
    at: Seq<Seq<char>>,
    dir_mode: u32,
    file_mode: u32,
    svc: OwnerIds,
    op: OwnerIds,
)
    requires
        tree_wf(t),
    ensures
        postorder_safe(lockdown_plan(t, at, dir_mode, file_mode, svc, op)),
        steps_within(lockdown_plan(t, at, dir_mode, file_mode, svc, op), at.push(t.entry_name())),
    decreases t,
{
    let plan = lockdown_plan(t, at, dir_mode, file_mode, svc, op);
    let root = at.push(t.entry_name());
    match t {
        TreeV::File { .. } => {
            assert forall|i: int| 0 <= i < plan.len() implies (#[trigger] plan[i]).path.len()
                >= root.len() && plan[i].path.take(root.len() as int) == root by {
                assert(plan[i].path == root);
                assert(root.take(root.len() as int) =~= root);
            }
        },
        TreeV::Dir { name, children, .. } => {
            let prep = seq![
                PermStepV { path: root, phase: PermPhase::Prepare, mode: 0o700, owner: op },
            ];
            let settle = seq![
                PermStepV { path: root, phase: PermPhase::Settle, mode: dir_mode, owner: svc },
            ];
            let mid = lockdown_plans(children, root, dir_mode, file_mode, svc, op);
            lemma_lockdown_plans_postorder(children, root, dir_mode, file_mode, svc, op);
            lemma_postorder_append(prep, mid);
            lemma_postorder_append(prep + mid, settle);
            assert(plan =~= (prep + mid) + settle);
            assert(root.take(root.len() as int) =~= root);
            assert forall|i: int| 0 <= i < plan.len() implies (#[trigger] plan[i]).path.len()
                >= root.len() && plan[i].path.take(root.len() as int) == root by {
                if 0 < i < 1 + mid.len() {
                    assert(plan[i] == mid[i - 1]);
                }
            }
        },
    }
}

proof fn lemma_lockdown_plans_postorder(
    ts: Seq<TreeV>,
    at: Seq<Seq<char>>,
    dir_mode: u32,
    file_mode: u32,
    svc: OwnerIds,
    op: OwnerIds,
)
    requires
        seq_wf(ts),
        distinct_names(ts),
    ensures
        postorder_safe(lockdown_plans(ts, at, dir_mode, file_mode, svc, op)),
        forall|i: int|
            0 <= i < lockdown_plans(ts, at, dir_mode, file_mode, svc, op).len()
                ==> (#[trigger] lockdown_plans(ts, at, dir_mode, file_mode, svc, op)[i]).path.len()
                > at.len() && lockdown_plans(ts, at, dir_mode, file_mode, svc, op)[i].path.take(
                at.len() as int,
            ) == at,
        forall|i: int|
            0 <= i < lockdown_plans(ts, at, dir_mode, file_mode, svc, op).len()
                ==> exists|k: int|
                0 <= k < ts.len() && (#[trigger] lockdown_plans(
                    ts,
                    at,
                    dir_mode,
                    file_mode,
                    svc,
                    op,
                )[i]).path.take(at.len() as int + 1) == at.push(ts[k].entry_name()),
    decreases ts,
{
    let plans = lockdown_plans(ts, at, dir_mode, file_mode, svc, op);
    if ts.len() > 0 {
        let head = lockdown_plan(ts[0], at, dir_mode, file_mode, svc, op);
        let rest = lockdown_plans(ts.drop_first(), at, dir_mode, file_mode, svc, op);
        let r0 = at.push(ts[0].entry_name());
        lemma_lockdown_plan_postorder(ts[0], at, dir_mode, file_mode, svc, op);
        lemma_lockdown_plans_postorder(ts.drop_first(), at, dir_mode, file_mode, svc, op);
        assert(plans == head + rest);
        // Steps of the head chunk lie within the first sibling's root; steps
        // of the rest lie within later siblings' roots, which carry other
        // names, so no settled entry of the head stands above a later step.
        assert forall|i: int, j: int|
            #![trigger head[i], rest[j]]
            0 <= i < head.len() && 0 <= j < rest.len() && head[i].phase == PermPhase::Settle
                implies !strictly_under(head[i].path, rest[j].path) by {
            if strictly_under(head[i].path, rest[j].path) {
                let k = choose|k: int|
                    0 <= k < ts.drop_first().len() && (#[trigger] rest[j].path.take(at.len() as int + 1))
                        == at.push(ts.drop_first()[k].entry_name());
                lemma_take_take(rest[j].path, at.len() as int + 1, head[i].path.len() as int);
                assert(rest[j].path.take(head[i].path.len() as int) == head[i].path);
                assert(rest[j].path.take(at.len() as int + 1) == head[i].path.take(at.len() as int + 1));
                assert(head[i].path.take(at.len() as int + 1) == r0);
                assert(ts.drop_first()[k] == ts[k + 1]);
                assert(at.push(ts[k + 1].entry_name()) == r0);
                assert(at.push(ts[k + 1].entry_name()).last() == r0.last());
                assert(ts[k + 1].entry_name() == ts[0].entry_name());
            }
        }
        lemma_postorder_append(head, rest);
        assert(r0.take(at.len() as int) =~= at);
        assert forall|i: int| 0 <= i < plans.len() implies (#[trigger] plans[i]).path.len()
            > at.len() && plans[i].path.take(at.len() as int) == at by {
            if i < head.len() {
                assert(plans[i] == head[i]);
                assert(head[i].path.len() >= r0.len());
                lemma_take_take(head[i].path, at.len() as int, r0.len() as int);
            } else {
                assert(plans[i] == rest[i - head.len()]);
            }
        }
        assert forall|i: int| 0 <= i < plans.len() implies exists|k: int|
            0 <= k < ts.len() && (#[trigger] plans[i]).path.take(at.len() as int + 1) == at.push(
                ts[k].entry_name(),
            ) by {
            if i < head.len() {
                assert(plans[i] == head[i]);
                lemma_take_take(head[i].path, at.len() as int + 1, r0.len() as int);
                assert(plans[i].path.take(at.len() as int + 1) == at.push(ts[0].entry_name()));
            } else {
                assert(plans[i] == rest[i - head.len()]);
                let k = choose|k: int|
                    0 <= k < ts.drop_first().len() && (#[trigger] rest[i - head.len()].path.take(
                        at.len() as int + 1,
                    )) == at.push(ts.drop_first()[k].entry_name());
                assert(ts.drop_first()[k] == ts[k + 1]);
                assert(plans[i].path.take(at.len() as int + 1) == at.push(ts[k + 1].entry_name()));
            }
        }
    }
}

/// Law: the reverse plan opens every directory before it touches anything
/// below it, so the operating identity can always descend into the tree it
/// is reclaiming.
pub proof fn lemma_reclaim_plan_preorder(t: TreeV, at: Seq<Seq<char>>, op: OwnerIds)
    requires
        tree_wf(t),
    ensures
        preorder_safe(reclaim_plan(t, at, op)),
        steps_within(reclaim_plan(t, at, op), at.push(t.entry_name())),
    decreases t,
{
    let plan = reclaim_plan(t, at, op);
    let root = at.push(t.entry_name());
    match t {
        TreeV::File { .. } => {
            assert forall|i: int| 0 <= i < plan.len() implies (#[trigger] plan[i]).path.len()
                >= root.len() && plan[i].path.take(root.len() as int) == root by {
                assert(plan[i].path == root);
                assert(root.take(root.len() as int) =~= root);
            }
        },
        TreeV::Dir { name, children, .. } => {
            let head = seq![
                PermStepV { path: root, phase: PermPhase::Prepare, mode: 0o700, owner: op },
            ];
            let mid = reclaim_plans(children, root, op);
            lemma_reclaim_plans_preorder(children, root, op);
            lemma_preorder_append(head, mid);
            assert(plan =~= head + mid);
            assert(root.take(root.len() as int) =~= root);
            assert forall|i: int| 0 <= i < plan.len() implies (#[trigger] plan[i]).path.len()
                >= root.len() && plan[i].path.take(root.len() as int) == root by {
                if 0 < i {
                    assert(plan[i] == mid[i - 1]);
                }
            }
        },
    }
}

proof fn lemma_reclaim_plans_preorder(ts: Seq<TreeV>, at: Seq<Seq<char>>, op: OwnerIds)
    requires
        seq_wf(ts),
        distinct_names(ts),
    ensures
        preorder_safe(reclaim_plans(ts, at, op)),
        forall|i: int|
            0 <= i < reclaim_plans(ts, at, op).len() ==> (#[trigger] reclaim_plans(
                ts,
                at,
                op,
            )[i]).path.len() > at.len() && reclaim_plans(ts, at, op)[i].path.take(at.len() as int)
                == at,
        forall|i: int|
            0 <= i < reclaim_plans(ts, at, op).len() ==> exists|k: int|
                0 <= k < ts.len() && (#[trigger] reclaim_plans(ts, at, op)[i]).path.take(
                    at.len() as int + 1,
                ) == at.push(ts[k].entry_name()),
    decreases ts,
{
    let plans = reclaim_plans(ts, at, op);
    if ts.len() > 0 {
        let head = reclaim_plan(ts[0], at, op);
        let rest = reclaim_plans(ts.drop_first(), at, op);
        let r0 = at.push(ts[0].entry_name());
        lemma_reclaim_plan_preorder(ts[0], at, op);
        lemma_reclaim_plans_preorder(ts.drop_first(), at, op);
        assert(plans == head + rest);
        // A later step can only address an ancestor of an earlier one if both
        // lie under the same sibling root, and sibling names differ.
        assert forall|i: int, j: int|
            #![trigger head[i], rest[j]]
            0 <= i < head.len() && 0 <= j < rest.len() implies !strictly_under(
            rest[j].path,
            head[i].path,
        ) by {
            if strictly_under(rest[j].path, head[i].path) {
                let k = choose|k: int|
                    0 <= k < ts.drop_first().len() && (#[trigger] rest[j].path.take(
                        at.len() as int + 1,
                    )) == at.push(ts.drop_first()[k].entry_name());
                lemma_take_take(head[i].path, at.len() as int + 1, rest[j].path.len() as int);
                assert(head[i].path.take(rest[j].path.len() as int) == rest[j].path);
                assert(head[i].path.take(at.len() as int + 1) == rest[j].path.take(
                    at.len() as int + 1,
                ));
                assert(head[i].path.take(at.len() as int + 1) == r0);
                assert(ts.drop_first()[k] == ts[k + 1]);
                assert(at.push(ts[k + 1].entry_name()) == r0);
                assert(at.push(ts[k + 1].entry_name()).last() == r0.last());
                assert(ts[k + 1].entry_name() == ts[0].entry_name());
            }
        }
        lemma_preorder_append(head, rest);
        assert(r0.take(at.len() as int) =~= at);
        assert forall|i: int| 0 <= i < plans.len() implies (#[trigger] plans[i]).path.len()
            > at.len() && plans[i].path.take(at.len() as int) == at by {
            if i < head.len() {
                assert(plans[i] == head[i]);
                assert(head[i].path.len() >= r0.len());
                lemma_take_take(head[i].path, at.len() as int, r0.len() as int);
            } else {
                assert(plans[i] == rest[i - head.len()]);
            }
        }
        assert forall|i: int| 0 <= i < plans.len() implies exists|k: int|
            0 <= k < ts.len() && (#[trigger] plans[i]).path.take(at.len() as int + 1) == at.push(
                ts[k].entry_name(),
            ) by {
            if i < head.len() {
                assert(plans[i] == head[i]);
                lemma_take_take(head[i].path, at.len() as int + 1, r0.len() as int);
                assert(plans[i].path.take(at.len() as int + 1) == at.push(ts[0].entry_name()));
            } else {
                assert(plans[i] == rest[i - head.len()]);
                let k = choose|k: int|
                    0 <= k < ts.drop_first().len() && (#[trigger] rest[i - head.len()].path.take(
                        at.len() as int + 1,
                    )) == at.push(ts.drop_first()[k].entry_name());
                assert(ts.drop_first()[k] == ts[k + 1]);
                assert(plans[i].path.take(at.len() as int + 1) == at.push(
                    ts[k + 1].entry_name(),
                ));
            }
        }
    }
}

/// Law: in a forward plan, every prepare step grants the operating identity
/// exclusive access (0700 on directories, 0600 on files) and every settle
/// step applies the final service ownership with `dir_mode` or `file_mode`;
/// reverse-plan steps all restore operating ownership at 0700.
pub proof fn lemma_plan_values(
    t: TreeV,
    at: Seq<Seq<char>>,
    dir_mode: u32,
    file_mode: u32,
    svc: OwnerIds,
    op: OwnerIds,
)
    ensures
        forall|i: int|
            0 <= i < lockdown_plan(t, at, dir_mode, file_mode, svc, op).len() ==> {
                let s = #[trigger] lockdown_plan(t, at, dir_mode, file_mode, svc, op)[i];
                &&& (s.phase == PermPhase::Settle ==> s.owner == svc && (s.mode == dir_mode
                    || s.mode == file_mode))
                &&& (s.phase == PermPhase::Prepare ==> s.owner == op && (s.mode == 0o700
                    || s.mode == 0o600))
            },
        forall|i: int|
            0 <= i < reclaim_plan(t, at, op).len() ==> {
                let s = #[trigger] reclaim_plan(t, at, op)[i];
                s.phase == PermPhase::Prepare && s.owner == op && s.mode == 0o700
            },
    decreases t,
{
    if let TreeV::Dir { children, .. } = t {
        lemma_plans_values(children, at.push(t.entry_name()), dir_mode, file_mode, svc, op);
    }
}

proof fn lemma_plans_values(
    ts: Seq<TreeV>,
    at: Seq<Seq<char>>,
    dir_mode: u32,
    file_mode: u32,
    svc: OwnerIds,
    op: OwnerIds,
)
    ensures
        forall|i: int|
            0 <= i < lockdown_plans(ts, at, dir_mode, file_mode, svc, op).len() ==> {
                let s = #[trigger] lockdown_plans(ts, at, dir_mode, file_mode, svc, op)[i];
                &&& (s.phase == PermPhase::Settle ==> s.owner == svc && (s.mode == dir_mode
                    || s.mode == file_mode))
                &&& (s.phase == PermPhase::Prepare ==> s.owner == op && (s.mode == 0o700
                    || s.mode == 0o600))
            },
        forall|i: int|
            0 <= i < reclaim_plans(ts, at, op).len() ==> {
                let s = #[trigger] reclaim_plans(ts, at, op)[i];
                s.phase == PermPhase::Prepare && s.owner == op && s.mode == 0o700
            },
    decreases ts,
{
    if ts.len() > 0 {
        lemma_plan_values(ts[0], at, dir_mode, file_mode, svc, op);
        lemma_plans_values(ts.drop_first(), at, dir_mode, file_mode, svc, op);
    }
}


proof fn lemma_lockdown_plans_push(
    ts: Seq<TreeV>,
    x: TreeV,
    at: Seq<Seq<char>>,
    dir_mode: u32,
    file_mode: u32,
    svc: OwnerIds,
    op: OwnerIds,
)
    ensures
        lockdown_plans(ts.push(x), at, dir_mode, file_mode, svc, op) == lockdown_plans(
            ts,
            at,
            dir_mode,
            file_mode,
            svc,
            op,
        ) + lockdown_plan(x, at, dir_mode, file_mode, svc, op),
    decreases ts,
{
    reveal_with_fuel(lockdown_plans, 3);
    let all = lockdown_plans(ts.push(x), at, dir_mode, file_mode, svc, op);
    if ts.len() == 0 {
        assert(ts.push(x)[0] == x);
        assert(ts.push(x).drop_first() =~= Seq::<TreeV>::empty());
        assert(all =~= lockdown_plans(ts, at, dir_mode, file_mode, svc, op) + lockdown_plan(
            x,
            at,
            dir_mode,
            file_mode,
            svc,
            op,
        ));
    } else {
        assert(ts.push(x)[0] == ts[0]);
        assert(ts.push(x).drop_first() =~= ts.drop_first().push(x));
        lemma_lockdown_plans_push(ts.drop_first(), x, at, dir_mode, file_mode, svc, op);
        assert(all =~= lockdown_plans(ts, at, dir_mode, file_mode, svc, op) + lockdown_plan(
            x,
            at,
            dir_mode,
            file_mode,
            svc,
            op,
        ));
    }
}

proof fn lemma_reclaim_plans_push(ts: Seq<TreeV>, x: TreeV, at: Seq<Seq<char>>, op: OwnerIds)
    ensures
        reclaim_plans(ts.push(x), at, op) == reclaim_plans(ts, at, op) + reclaim_plan(x, at, op),
    decreases ts,
{
    reveal_with_fuel(reclaim_plans, 3);
    let all = reclaim_plans(ts.push(x), at, op);
    if ts.len() == 0 {
        assert(ts.push(x)[0] == x);
        assert(ts.push(x).drop_first() =~= Seq::<TreeV>::empty());
        assert(all =~= reclaim_plans(ts, at, op) + reclaim_plan(x, at, op));
    } else {
        assert(ts.push(x)[0] == ts[0]);
        assert(ts.push(x).drop_first() =~= ts.drop_first().push(x));
        lemma_reclaim_plans_push(ts.drop_first(), x, at, op);
        assert(all =~= reclaim_plans(ts, at, op) + reclaim_plan(x, at, op));
    }
}

fn clone_path(p: &Vec<String>) -> (r: Vec<String>)
    ensures
        r.deep_view() == p.deep_view(),
{
    let r = p.clone();
    proof {
        assert forall|i: int| 0 <= i < p@.len() implies r@[i]@ == p@[i]@ by {
            assert(cloned::<String>(p@[i], r@[i]));
        }
        assert(r.deep_view() =~= p.deep_view());
    }
    r
}

#[verifier::loop_isolation(false)]
fn plan_lockdown_into(
    t: &FsTree,
    path: &mut Vec<String>,
    dir_mode: u32,
    file_mode: u32,
    svc: OwnerIds,
    op: OwnerIds,
    out: &mut Vec<PermStep>,
)
    ensures
        final(path)@ == old(path)@,
        steps_view(final(out)@) == steps_view(old(out)@) + lockdown_plan(
            t@,
            old(path).deep_view(),
            dir_mode,
            file_mode,
            svc,
            op,
        ),
    decreases *t,
{
    let ghost path0 = path@;
    let ghost out0 = steps_view(out@);
    match t {
        FsTree::File { name, .. } => {
            path.push(name.clone());
            let ghost pv = path.deep_view();
            assert(pv =~= old(path).deep_view().push(name@));
            out.push(
                PermStep {
                    path: clone_path(path),
                    phase: PermPhase::Prepare,
                    mode: 0o600,
                    owner: op,
                },
            );
            out.push(
                PermStep {
                    path: clone_path(path),
                    phase: PermPhase::Settle,
                    mode: file_mode,
                    owner: svc,
                },
            );
            path.pop();
            proof {
                assert(final(path)@ =~= path0);
                assert(steps_view(out@) =~= out0 + lockdown_plan(
                    t@,
                    old(path).deep_view(),
                    dir_mode,
                    file_mode,
                    svc,
                    op,
                ));
            }
        },
        FsTree::Dir { name, children, .. } => {
            path.push(name.clone());
            let ghost pv = path.deep_view();
            assert(pv =~= old(path).deep_view().push(name@));
            out.push(
                PermStep {
                    path: clone_path(path),
                    phase: PermPhase::Prepare,
                    mode: 0o700,
                    owner: op,
                },
            );
            let ghost prep = seq![
                PermStepV { path: pv, phase: PermPhase::Prepare, mode: 0o700, owner: op },
            ];
            assert(steps_view(out@) =~= out0 + prep);
            let mut i: usize = 0;
            while i < children.len()
                invariant
                    i <= children.len(),
                    path@ == path0.push(*name),
                    path.deep_view() == pv,
                    steps_view(out@) == out0 + prep + lockdown_plans(
                        tree_views(children@).take(i as int),
                        pv,
                        dir_mode,
                        file_mode,
                        svc,
                        op,
                    ),
                decreases children.len() - i,
            {
                proof {
                    assert(*children == (*t)->Dir_children);
                    assert(decreases_to!(*t => (*t)->Dir_children));
                    assert(decreases_to!((*t)->Dir_children => (*t)->Dir_children@));
                    assert(decreases_to!((*t)->Dir_children@ => (*t)->Dir_children@[i as int]));
                    assert(decreases_to!(*t => children@[i as int]));
                }
                plan_lockdown_into(&children[i], path, dir_mode, file_mode, svc, op, out);
                proof {
                    lemma_tree_views_index(children@);
                    lemma_lockdown_plans_push(
                        tree_views(children@).take(i as int),
                        tree_view(children@[i as int]),
                        pv,
                        dir_mode,
                        file_mode,
                        svc,
                        op,
                    );
                    assert(tree_views(children@).take(i as int + 1) =~= tree_views(
                        children@,
                    ).take(i as int).push(tree_views(children@)[i as int]));
                    assert(steps_view(out@) =~= out0 + prep + lockdown_plans(
                        tree_views(children@).take(i as int + 1),
                        pv,
                        dir_mode,
                        file_mode,
                        svc,
                        op,
                    ));
                }
                i += 1;
            }
            proof {
                lemma_tree_views_index(children@);
                assert(tree_views(children@).take(children@.len() as int) =~= tree_views(
                    children@,
                ));
            }
            let ghost mid_full = lockdown_plans(
                tree_views(children@),
                pv,
                dir_mode,
                file_mode,
                svc,
                op,
            );
            assert(steps_view(out@) == out0 + prep + mid_full);
            out.push(
                PermStep {
                    path: clone_path(path),
                    phase: PermPhase::Settle,
                    mode: dir_mode,
                    owner: svc,
                },
            );
            let ghost settle = seq![
                PermStepV { path: pv, phase: PermPhase::Settle, mode: dir_mode, owner: svc },
            ];
            assert(steps_view(out@) =~= out0 + prep + mid_full + settle);
            path.pop();
            proof {
                assert(t@ == TreeV::Dir {
                    name: name@,
                    owner: t@->Dir_owner,
                    mode: t@->Dir_mode,
                    children: tree_views(children@),
                });
                assert(lockdown_plan(t@, old(path).deep_view(), dir_mode, file_mode, svc, op)
                    == prep + mid_full + settle);
                assert(final(path)@ =~= path0);
                assert(steps_view(out@) =~= out0 + lockdown_plan(
                    t@,
                    old(path).deep_view(),
                    dir_mode,
                    file_mode,
                    svc,
                    op,
                ));
            }
        },
    }
}

/// The forward transition as an executable planner: the returned steps, taken
/// in order, realise `lockdown_plan` for the tree, with paths relative to the
/// store base.
pub fn plan_lockdown(
    tree: &FsTree,
    dir_mode: u32,
    file_mode: u32,
    svc: OwnerIds,
    op: OwnerIds,
) -> (r: Vec<PermStep>)
    ensures
        steps_view(r@) == lockdown_plan(tree@, Seq::empty(), dir_mode, file_mode, svc, op),
{
    let mut out: Vec<PermStep> = Vec::new();
    let mut path: Vec<String> = Vec::new();
    assert(path.deep_view() =~= Seq::<Seq<char>>::empty());
    plan_lockdown_into(tree, &mut path, dir_mode, file_mode, svc, op, &mut out);
    proof {
        assert(steps_view(out@) =~= lockdown_plan(
            tree@,
            Seq::empty(),
            dir_mode,
            file_mode,
            svc,
            op,
        ));
    }
    out
}

#[verifier::loop_isolation(false)]
fn plan_reclaim_into(t: &FsTree, path: &mut Vec<String>, op: OwnerIds, out: &mut Vec<PermStep>)
    ensures
        final(path)@ == old(path)@,
        steps_view(final(out)@) == steps_view(old(out)@) + reclaim_plan(
            t@,
            old(path).deep_view(),
            op,
        ),
    decreases *t,
{
    let ghost path0 = path@;
    let ghost out0 = steps_view(out@);
    match t {
        FsTree::File { name, .. } => {
            path.push(name.clone());
            let ghost pv = path.deep_view();
            assert(pv =~= old(path).deep_view().push(name@));
            out.push(
                PermStep {
                    path: clone_path(path),
                    phase: PermPhase::Prepare,
                    mode: 0o700,
                    owner: op,
                },
            );
            path.pop();
            proof {
                assert(final(path)@ =~= path0);
                assert(steps_view(out@) =~= out0 + reclaim_plan(
                    t@,
                    old(path).deep_view(),
                    op,
                ));
            }
        },
        FsTree::Dir { name, children, .. } => {
            path.push(name.clone());
            let ghost pv = path.deep_view();
            assert(pv =~= old(path).deep_view().push(name@));
            out.push(
                PermStep {
                    path: clone_path(path),
                    phase: PermPhase::Prepare,
                    mode: 0o700,
                    owner: op,
                },
            );
            let ghost prep = seq![
                PermStepV { path: pv, phase: PermPhase::Prepare, mode: 0o700, owner: op },
            ];
            assert(steps_view(out@) =~= out0 + prep);
            let mut i: usize = 0;
            while i < children.len()
                invariant
                    i <= children.len(),
                    path@ == path0.push(*name),
                    path.deep_view() == pv,
                    steps_view(out@) == out0 + prep + reclaim_plans(
                        tree_views(children@).take(i as int),
                        pv,
                        op,
                    ),
                decreases children.len() - i,
            {
                proof {
                    assert(*children == (*t)->Dir_children);
                    assert(decreases_to!(*t => (*t)->Dir_children));
                    assert(decreases_to!((*t)->Dir_children => (*t)->Dir_children@));
                    assert(decreases_to!((*t)->Dir_children@ => (*t)->Dir_children@[i as int]));
                    assert(decreases_to!(*t => children@[i as int]));
                }
                plan_reclaim_into(&children[i], path, op, out);
                proof {
                    lemma_tree_views_index(children@);
                    lemma_reclaim_plans_push(
                        tree_views(children@).take(i as int),
                        tree_view(children@[i as int]),
                        pv,
                        op,
                    );
                    assert(tree_views(children@).take(i as int + 1) =~= tree_views(
                        children@,
                    ).take(i as int).push(tree_views(children@)[i as int]));
                    assert(steps_view(out@) =~= out0 + prep + reclaim_plans(
                        tree_views(children@).take(i as int + 1),
                        pv,
                        op,
                    ));
                }
                i += 1;
            }
            path.pop();
            proof {
                lemma_tree_views_index(children@);
                assert(tree_views(children@).take(children@.len() as int) =~= tree_views(
                    children@,
                ));
                assert(final(path)@ =~= path0);
                assert(steps_view(out@) =~= out0 + reclaim_plan(
                    t@,
                    old(path).deep_view(),
                    op,
                ));
            }
        },
    }
}

/// The reverse transition as an executable planner: every entry back to the
/// operating identity at mode 0700, ancestors first.
pub fn plan_reclaim(tree: &FsTree, op: OwnerIds) -> (r: Vec<PermStep>)
    ensures
        steps_view(r@) == reclaim_plan(tree@, Seq::empty(), op),
{
    let mut out: Vec<PermStep> = Vec::new();
    let mut path: Vec<String> = Vec::new();
    assert(path.deep_view() =~= Seq::<Seq<char>>::empty());
    plan_reclaim_into(tree, &mut path, op, &mut out);
    proof {
        assert(steps_view(out@) =~= reclaim_plan(tree@, Seq::empty(), op));
    }
    out
}


/// Relies on users::get_user_by_name: the uid of the named user, if this
/// host's user database knows the name. The answer depends on the host, so
/// nothing is promised of it.
#[verifier::external_body]
fn lookup_user_id(name: &str) -> Option<u32> {
    users::get_user_by_name(name).map(|u| u.uid())
}

/// Relies on users::get_group_by_name: the gid of the named group, if this
/// host's group database knows the name. The answer depends on the host, so
/// nothing is promised of it.
#[verifier::external_body]
fn lookup_group_id(name: &str) -> Option<u32> {
    users::get_group_by_name(name).map(|g| g.gid())
}

/// Relies on nix::unistd::getuid: the real uid of this process; depends on
/// the process, so nothing is promised of it.
#[verifier::external_body]
fn process_uid() -> u32 {
    nix::unistd::getuid().as_raw()
}

/// Relies on nix::unistd::getgid: the real gid of this process; depends on
/// the process, so nothing is promised of it.
#[verifier::external_body]
fn process_gid() -> u32 {
    nix::unistd::getgid().as_raw()
}

/// Turn the two host answers into a service identity: both names must
/// exist, else the transition fails before touching anything.
pub fn resolve_ids(user_id: Option<u32>, group_id: Option<u32>) -> (r: Result<
    OwnerIds,
    StoreError,
>)
    ensures
        (user_id matches Some(u) && group_id matches Some(g) && r == Ok::<OwnerIds, StoreError>(
            OwnerIds { uid: u, gid: g },
        )) || ((user_id is None || group_id is None) && r == Err::<OwnerIds, StoreError>(
            StoreError::IdentityResolutionError,
        )),
{
    match (user_id, group_id) {
        (Some(uid), Some(gid)) => Ok(OwnerIds { uid, gid }),
        _ => Err(StoreError::IdentityResolutionError),
    }
}

/// Resolve the service user and group names on this host. Fails with
/// `IdentityResolutionError` exactly when either name does not exist here.
pub fn resolve_identities(web_user: &str, web_group: &str) -> (r: Result<OwnerIds, StoreError>)
    ensures
        r is Err ==> r == Err::<OwnerIds, StoreError>(StoreError::IdentityResolutionError),
{
    resolve_ids(lookup_user_id(web_user), lookup_group_id(web_group))
}

/// The identity this process runs as: the operating principal of every
/// transition.
pub fn operating_identity() -> OwnerIds {
    OwnerIds { uid: process_uid(), gid: process_gid() }
}


/// The number of entries in the tree, the root included.
pub open spec fn tree_size(t: TreeV) -> int
    decreases t,
{
    match t {
        TreeV::File { .. } => 1,
        TreeV::Dir { children, .. } => 1 + trees_size(children),
    }
}

pub open spec fn trees_size(ts: Seq<TreeV>) -> int
    decreases ts,
{
    if ts.len() == 0 {
        0
    } else {
        tree_size(ts[0]) + trees_size(ts.drop_first())
    }
}

/// Law: the plans touch every entry of the tree and nothing else — the
/// forward plan holds exactly one prepare and one settle step per entry,
/// the reverse plan exactly one step per entry.
pub proof fn lemma_plan_sizes(
    t: TreeV,
    at: Seq<Seq<char>>,
    dir_mode: u32,
    file_mode: u32,
    svc: OwnerIds,
    op: OwnerIds,
)
    ensures
        lockdown_plan(t, at, dir_mode, file_mode, svc, op).len() == 2 * tree_size(t),
        reclaim_plan(t, at, op).len() == tree_size(t),
        tree_size(t) >= 1,
    decreases t,
{
    if let TreeV::Dir { children, .. } = t {
        lemma_plans_sizes(children, at.push(t.entry_name()), dir_mode, file_mode, svc, op);
    }
}

proof fn lemma_plans_sizes(
    ts: Seq<TreeV>,
    at: Seq<Seq<char>>,
    dir_mode: u32,
    file_mode: u32,
    svc: OwnerIds,
    op: OwnerIds,
)
    ensures
        lockdown_plans(ts, at, dir_mode, file_mode, svc, op).len() == 2 * trees_size(ts),
        reclaim_plans(ts, at, op).len() == trees_size(ts),
        trees_size(ts) >= 0,
    decreases ts,
{
    if ts.len() > 0 {
        lemma_plan_sizes(ts[0], at, dir_mode, file_mode, svc, op);
        lemma_plans_sizes(ts.drop_first(), at, dir_mode, file_mode, svc, op);
    }
}


/// One planned mutation applied to the model: if `path`, read from depth
/// `d` on, addresses an entry of the tree, that entry takes the mode and
/// owner; any other path changes nothing.
pub open spec fn set_at(t: TreeV, path: Seq<Seq<char>>, d: int, mode: u32, owner: OwnerIds) -> TreeV
    decreases t,
{
    if d < 0 || d >= path.len() || path[d] != t.entry_name() {
        t
    } else if d == path.len() - 1 {
        match t {
            TreeV::File { name, .. } => TreeV::File { name, owner, mode },
            TreeV::Dir { name, children, .. } => TreeV::Dir { name, owner, mode, children },
        }
    } else {
        match t {
            TreeV::File { .. } => t,
            TreeV::Dir { name, owner: o, mode: m, children } => TreeV::Dir {
                name,
                owner: o,
                mode: m,
                children: set_children(children, path, d + 1, mode, owner),
            },
        }
    }
}

pub open spec fn set_children(
    ts: Seq<TreeV>,
    path: Seq<Seq<char>>,
    d: int,
    mode: u32,
    owner: OwnerIds,
) -> Seq<TreeV>
    decreases ts,
{
    if ts.len() == 0 {
        Seq::empty()
    } else {
        seq![set_at(ts[0], path, d, mode, owner)] + set_children(
            ts.drop_first(),
            path,
            d,
            mode,
            owner,
        )
    }
}

/// A whole plan applied to the model, step by step, paths read from depth
/// `d` on.
pub open spec fn apply_steps(t: TreeV, plan: Seq<PermStepV>, d: int) -> TreeV
    decreases plan.len(),
{
    if plan.len() == 0 {
        t
    } else {
        apply_steps(set_at(t, plan[0].path, d, plan[0].mode, plan[0].owner), plan.drop_first(), d)
    }
}

proof fn lemma_set_children_index(
    ts: Seq<TreeV>,
    path: Seq<Seq<char>>,
    d: int,
    mode: u32,
    owner: OwnerIds,
)
    ensures
        set_children(ts, path, d, mode, owner).len() == ts.len(),
        forall|j: int|
            0 <= j < ts.len() ==> set_children(ts, path, d, mode, owner)[j] == set_at(
                ts[j],
                path,
                d,
                mode,
                owner,
            ),
    decreases ts,
{
    if ts.len() > 0 {
        lemma_set_children_index(ts.drop_first(), path, d, mode, owner);
    }
}

proof fn lemma_apply_concat(a: Seq<PermStepV>, b: Seq<PermStepV>, t: TreeV, d: int)
    ensures
        apply_steps(t, a + b, d) == apply_steps(apply_steps(t, a, d), b, d),
    decreases a.len(),
{
    if a.len() == 0 {
        assert(a + b =~= b);
    } else {
        assert((a + b)[0] == a[0]);
        assert((a + b).drop_first() =~= a.drop_first() + b);
        lemma_apply_concat(
            a.drop_first(),
            b,
            set_at(t, a[0].path, d, a[0].mode, a[0].owner),
            d,
        );
    }
}

/// Steps whose paths do not name this entry at depth `d` leave it alone.
proof fn lemma_apply_miss(t: TreeV, plan: Seq<PermStepV>, d: int)
    requires
        forall|i: int|
            0 <= i < plan.len() ==> (#[trigger] plan[i]).path.len() <= d || plan[i].path[d]
                != t.entry_name(),
    ensures
        apply_steps(t, plan, d) == t,
    decreases plan.len(),
{
    if plan.len() > 0 {
        assert(set_at(t, plan[0].path, d, plan[0].mode, plan[0].owner) == t);
        assert forall|i: int|
            0 <= i < plan.drop_first().len() implies (#[trigger] plan.drop_first()[
            i]).path.len() <= d || plan.drop_first()[i].path[d] != t.entry_name() by {
            assert(plan.drop_first()[i] == plan[i + 1]);
        }
        lemma_apply_miss(t, plan.drop_first(), d);
    }
}

/// A plan that only descends — every path reaches below this directory —
/// acts on the children alone.
proof fn lemma_apply_descends(
    name: Seq<char>,
    o: OwnerIds,
    m: u32,
    cs: Seq<TreeV>,
    plan: Seq<PermStepV>,
    d: int,
)
    requires
        0 <= d,
        forall|i: int|
            0 <= i < plan.len() ==> (#[trigger] plan[i]).path.len() > d + 1 && plan[i].path[d]
                == name,
    ensures
        (apply_steps(TreeV::Dir { name, owner: o, mode: m, children: cs }, plan, d)
            == TreeV::Dir { name, owner: o, mode: m, children: apply_children(cs, plan, d + 1) }),
    decreases plan.len(),
{
    let t = TreeV::Dir { name, owner: o, mode: m, children: cs };
    if plan.len() == 0 {
    } else {
        let s0 = plan[0];
        assert(set_at(t, s0.path, d, s0.mode, s0.owner) == TreeV::Dir {
            name,
            owner: o,
            mode: m,
            children: set_children(cs, s0.path, d + 1, s0.mode, s0.owner),
        });
        assert forall|i: int|
            0 <= i < plan.drop_first().len() implies (#[trigger] plan.drop_first()[
            i]).path.len() > d + 1 && plan.drop_first()[i].path[d] == name by {
            assert(plan.drop_first()[i] == plan[i + 1]);
        }
        lemma_apply_descends(
            name,
            o,
            m,
            set_children(cs, s0.path, d + 1, s0.mode, s0.owner),
            plan.drop_first(),
            d,
        );
    }
}

/// A plan folded over a list of children, paths read from depth `d` on.
pub open spec fn apply_children(ts: Seq<TreeV>, plan: Seq<PermStepV>, d: int) -> Seq<TreeV>
    decreases plan.len(),
{
    if plan.len() == 0 {
        ts
    } else {
        apply_children(
            set_children(ts, plan[0].path, d, plan[0].mode, plan[0].owner),
            plan.drop_first(),
            d,
        )
    }
}

/// Applying a plan to a list of children acts on each child independently.
proof fn lemma_apply_children_elementwise(ts: Seq<TreeV>, plan: Seq<PermStepV>, d: int)
    ensures
        apply_children(ts, plan, d).len() == ts.len(),
        forall|j: int|
            0 <= j < ts.len() ==> apply_children(ts, plan, d)[j] == apply_steps(ts[j], plan, d),
    decreases plan.len(),
{
    if plan.len() > 0 {
        let s0 = plan[0];
        lemma_set_children_index(ts, s0.path, d, s0.mode, s0.owner);
        let stepped = set_children(ts, s0.path, d, s0.mode, s0.owner);
        lemma_apply_children_elementwise(stepped, plan.drop_first(), d);
    }
}

proof fn lemma_lockdown_trees_index(ts: Seq<TreeV>, dir_mode: u32, file_mode: u32, svc: OwnerIds)
    ensures
        lockdown_trees(ts, dir_mode, file_mode, svc).len() == ts.len(),
        forall|j: int|
            0 <= j < ts.len() ==> lockdown_trees(ts, dir_mode, file_mode, svc)[j] == lockdown_tree(
                ts[j],
                dir_mode,
                file_mode,
                svc,
            ),
    decreases ts,
{
    if ts.len() > 0 {
        lemma_lockdown_trees_index(ts.drop_first(), dir_mode, file_mode, svc);
    }
}

/// Law: running the forward plan against the model tree, step by step,
/// produces exactly the locked-down tree — the plan realises the
/// transition it stands for.
pub proof fn lemma_lockdown_plan_applies(
    t: TreeV,
    at: Seq<Seq<char>>,
    dir_mode: u32,
    file_mode: u32,
    svc: OwnerIds,
    op: OwnerIds,
)
    requires
        tree_wf(t),
    ensures
        apply_steps(t, lockdown_plan(t, at, dir_mode, file_mode, svc, op), at.len() as int)
            == lockdown_tree(t, dir_mode, file_mode, svc),
    decreases t, 1int,
{
    reveal_with_fuel(apply_steps, 4);
    let d = at.len() as int;
    let p = at.push(t.entry_name());
    match t {
        TreeV::File { name, .. } => {
            let plan = lockdown_plan(t, at, dir_mode, file_mode, svc, op);
            assert(plan.drop_first() =~= seq![
                PermStepV { path: p, phase: PermPhase::Settle, mode: file_mode, owner: svc },
            ]);
            assert(plan.drop_first().drop_first() =~= Seq::<PermStepV>::empty());
            assert(p[d] == name);
        },
        TreeV::Dir { name, owner: o, mode: m, children, .. } => {
            let prep = seq![
                PermStepV { path: p, phase: PermPhase::Prepare, mode: 0o700, owner: op },
            ];
            let settle = seq![
                PermStepV { path: p, phase: PermPhase::Settle, mode: dir_mode, owner: svc },
            ];
            let mid = lockdown_plans(children, p, dir_mode, file_mode, svc, op);
            let plan = lockdown_plan(t, at, dir_mode, file_mode, svc, op);
            assert(plan == prep + mid + settle);
            lemma_apply_concat(prep + mid, settle, t, d);
            lemma_apply_concat(prep, mid, t, d);
            assert(p[d] == name);
            let t1 = apply_steps(t, prep, d);
            assert(t1 == TreeV::Dir { name, owner: op, mode: 0o700, children });
            lemma_lockdown_plans_postorder(children, p, dir_mode, file_mode, svc, op);
            assert forall|i: int| 0 <= i < mid.len() implies (#[trigger] mid[i]).path.len() > d + 1
                && mid[i].path[d] == name by {
                assert(mid[i].path.take(p.len() as int)[d] == mid[i].path[d]);
            }
            lemma_apply_descends(name, op, 0o700, children, mid, d);
            let cs2 = apply_children(children, mid, d + 1);
            lemma_apply_children_elementwise(children, mid, d + 1);
            assert forall|j: int| 0 <= j < children.len() implies apply_steps(
                children[j],
                mid,
                d + 1,
            ) == lockdown_tree(children[j], dir_mode, file_mode, svc) by {
                lemma_lockdown_chunks_apply(children, p, j, dir_mode, file_mode, svc, op);
            }
            lemma_lockdown_trees_index(children, dir_mode, file_mode, svc);
            assert(cs2 =~= lockdown_trees(children, dir_mode, file_mode, svc));
            let t2 = TreeV::Dir { name, owner: op, mode: 0o700, children: cs2 };
            assert(apply_steps(t1, mid, d) == t2);
            assert(apply_steps(t2, settle, d) == TreeV::Dir {
                name,
                owner: svc,
                mode: dir_mode,
                children: cs2,
            });
        },
    }
}

/// Within the concatenated plans of a sibling list, the j-th child is
/// transformed by its own chunk alone: every other chunk misses it.
proof fn lemma_lockdown_chunks_apply(
    ts: Seq<TreeV>,
    p: Seq<Seq<char>>,
    j: int,
    dir_mode: u32,
    file_mode: u32,
    svc: OwnerIds,
    op: OwnerIds,
)
    requires
        seq_wf(ts),
        distinct_names(ts),
        0 <= j < ts.len(),
    ensures
        apply_steps(
            ts[j],
            lockdown_plans(ts, p, dir_mode, file_mode, svc, op),
            p.len() as int,
        ) == lockdown_tree(ts[j], dir_mode, file_mode, svc),
    decreases ts, 0int,
{
    let d = p.len() as int;
    let head = lockdown_plan(ts[0], p, dir_mode, file_mode, svc, op);
    let rest = lockdown_plans(ts.drop_first(), p, dir_mode, file_mode, svc, op);
    assert(lockdown_plans(ts, p, dir_mode, file_mode, svc, op) == head + rest);
    lemma_apply_concat(head, rest, ts[j], d);
    lemma_lockdown_plan_postorder(ts[0], p, dir_mode, file_mode, svc, op);
    if j == 0 {
        lemma_lockdown_plan_applies(ts[0], p, dir_mode, file_mode, svc, op);
        // The later chunks lie under other siblings' names and miss the
        // locked child.
        let locked = lockdown_tree(ts[0], dir_mode, file_mode, svc);
        assert(locked.entry_name() == ts[0].entry_name());
        lemma_lockdown_plans_postorder(ts.drop_first(), p, dir_mode, file_mode, svc, op);
        assert forall|i: int| 0 <= i < rest.len() implies (#[trigger] rest[i]).path.len() <= d
            || rest[i].path[d] != locked.entry_name() by {
            let k = choose|k: int|
                0 <= k < ts.drop_first().len() && (#[trigger] rest[i].path.take(d + 1))
                    == p.push(ts.drop_first()[k].entry_name());
            assert(rest[i].path.take(d + 1)[d] == rest[i].path[d]);
            assert(ts.drop_first()[k] == ts[k + 1]);
            assert(ts[k + 1].entry_name() != ts[0].entry_name());
        }
        lemma_apply_miss(locked, rest, d);
    } else {
        assert forall|i: int| 0 <= i < head.len() implies (#[trigger] head[i]).path.len() <= d
            || head[i].path[d] != ts[j].entry_name() by {
            assert(head[i].path.take(p.push(ts[0].entry_name()).len() as int)[d]
                == head[i].path[d]);
        }
        lemma_apply_miss(ts[j], head, d);
        assert forall|k: int| 0 <= k < ts.drop_first().len() implies tree_wf(
            #[trigger] ts.drop_first()[k],
        ) by {
            assert(ts.drop_first()[k] == ts[k + 1]);
        }
        assert forall|k1: int, k2: int|
            0 <= k1 < k2 < ts.drop_first().len() implies (
            #[trigger] ts.drop_first()[k1]).entry_name() != (
            #[trigger] ts.drop_first()[k2]).entry_name() by {
            assert(ts.drop_first()[k1] == ts[k1 + 1] && ts.drop_first()[k2] == ts[k2 + 1]);
        }
        assert(ts.drop_first()[j - 1] == ts[j]);
        lemma_lockdown_chunks_apply(ts.drop_first(), p, j - 1, dir_mode, file_mode, svc, op);
    }
}


/// Law: running the reverse plan against the model tree produces exactly
/// the reclaimed tree.
pub proof fn lemma_reclaim_plan_applies(t: TreeV, at: Seq<Seq<char>>, op: OwnerIds)
    requires
        tree_wf(t),
    ensures
        apply_steps(t, reclaim_plan(t, at, op), at.len() as int) == reclaim_tree(t, op),
    decreases t, 1int,
{
    reveal_with_fuel(apply_steps, 3);
    let d = at.len() as int;
    let p = at.push(t.entry_name());
    match t {
        TreeV::File { name, .. } => {
            let plan = reclaim_plan(t, at, op);
            assert(plan.drop_first() =~= Seq::<PermStepV>::empty());
            assert(p[d] == name);
        },
        TreeV::Dir { name, owner: o, mode: m, children, .. } => {
            let head = seq![
                PermStepV { path: p, phase: PermPhase::Prepare, mode: 0o700, owner: op },
            ];
            let mid = reclaim_plans(children, p, op);
            let plan = reclaim_plan(t, at, op);
            assert(plan == head + mid);
            lemma_apply_concat(head, mid, t, d);
            assert(p[d] == name);
            let t1 = apply_steps(t, head, d);
            assert(t1 == TreeV::Dir { name, owner: op, mode: 0o700, children });
            lemma_reclaim_plans_preorder(children, p, op);
            assert forall|i: int| 0 <= i < mid.len() implies (#[trigger] mid[i]).path.len() > d + 1
                && mid[i].path[d] == name by {
                assert(mid[i].path.take(p.len() as int)[d] == mid[i].path[d]);
            }
            lemma_apply_descends(name, op, 0o700, children, mid, d);
            let cs2 = apply_children(children, mid, d + 1);
            lemma_apply_children_elementwise(children, mid, d + 1);
            assert forall|j: int| 0 <= j < children.len() implies apply_steps(
                children[j],
                mid,
                d + 1,
            ) == reclaim_tree(children[j], op) by {
                lemma_reclaim_chunks_apply(children, p, j, op);
            }
            lemma_reclaim_trees_index(children, op);
            assert(cs2 =~= reclaim_trees(children, op));
        },
    }
}

proof fn lemma_reclaim_chunks_apply(ts: Seq<TreeV>, p: Seq<Seq<char>>, j: int, op: OwnerIds)
    requires
        seq_wf(ts),
        distinct_names(ts),
        0 <= j < ts.len(),
    ensures
        apply_steps(ts[j], reclaim_plans(ts, p, op), p.len() as int) == reclaim_tree(ts[j], op),
    decreases ts, 0int,
{
    let d = p.len() as int;
    let head = reclaim_plan(ts[0], p, op);
    let rest = reclaim_plans(ts.drop_first(), p, op);
    assert(reclaim_plans(ts, p, op) == head + rest);
    lemma_apply_concat(head, rest, ts[j], d);
    lemma_reclaim_plan_preorder(ts[0], p, op);
    if j == 0 {
        lemma_reclaim_plan_applies(ts[0], p, op);
        let done = reclaim_tree(ts[0], op);
        assert(done.entry_name() == ts[0].entry_name());
        lemma_reclaim_plans_preorder(ts.drop_first(), p, op);
        assert forall|i: int| 0 <= i < rest.len() implies (#[trigger] rest[i]).path.len() <= d
            || rest[i].path[d] != done.entry_name() by {
            let k = choose|k: int|
                0 <= k < ts.drop_first().len() && (#[trigger] rest[i].path.take(d + 1)) == p.push(
                    ts.drop_first()[k].entry_name(),
                );
            assert(rest[i].path.take(d + 1)[d] == rest[i].path[d]);
            assert(ts.drop_first()[k] == ts[k + 1]);
            assert(ts[k + 1].entry_name() != ts[0].entry_name());
        }
        lemma_apply_miss(done, rest, d);
    } else {
        assert forall|i: int| 0 <= i < head.len() implies (#[trigger] head[i]).path.len() <= d
            || head[i].path[d] != ts[j].entry_name() by {
            assert(head[i].path.take(p.push(ts[0].entry_name()).len() as int)[d]
                == head[i].path[d]);
        }
        lemma_apply_miss(ts[j], head, d);
        assert forall|k: int| 0 <= k < ts.drop_first().len() implies tree_wf(
            #[trigger] ts.drop_first()[k],
        ) by {
            assert(ts.drop_first()[k] == ts[k + 1]);
        }
        assert forall|k1: int, k2: int|
            0 <= k1 < k2 < ts.drop_first().len() implies (
            #[trigger] ts.drop_first()[k1]).entry_name() != (
            #[trigger] ts.drop_first()[k2]).entry_name() by {
            assert(ts.drop_first()[k1] == ts[k1 + 1] && ts.drop_first()[k2] == ts[k2 + 1]);
        }
        assert(ts.drop_first()[j - 1] == ts[j]);
        lemma_reclaim_chunks_apply(ts.drop_first(), p, j - 1, op);
    }
}

/// Locking down keeps the shape of the tree: the same names in the same
/// places, so the tree stays well-formed and later plans address the same
/// entries.
pub proof fn lemma_lockdown_preserves_wf(t: TreeV, dir_mode: u32, file_mode: u32, svc: OwnerIds)
    requires
        tree_wf(t),
    ensures
        tree_wf(lockdown_tree(t, dir_mode, file_mode, svc)),
        lockdown_tree(t, dir_mode, file_mode, svc).entry_name() == t.entry_name(),
    decreases t,
{
    if let TreeV::Dir { children, .. } = t {
        lemma_lockdown_trees_index(children, dir_mode, file_mode, svc);
        let cs2 = lockdown_trees(children, dir_mode, file_mode, svc);
        assert forall|k: int| 0 <= k < cs2.len() implies tree_wf(#[trigger] cs2[k]) by {
            lemma_lockdown_preserves_wf(children[k], dir_mode, file_mode, svc);
        }
        assert forall|k1: int, k2: int|
            0 <= k1 < k2 < cs2.len() implies (#[trigger] cs2[k1]).entry_name() != (
        #[trigger] cs2[k2]).entry_name() by {
            lemma_lockdown_preserves_wf(children[k1], dir_mode, file_mode, svc);
            lemma_lockdown_preserves_wf(children[k2], dir_mode, file_mode, svc);
        }
    }
}

/// Law: the round trip over the model — run the forward plan, then the
/// reverse plan read off the locked tree — leaves every entry owned by the
/// operating identity at mode 0700, whatever the tree's depth.
pub proof fn lemma_transition_round_trip(
    t: TreeV,
    at: Seq<Seq<char>>,
    dir_mode: u32,
    file_mode: u32,
    svc: OwnerIds,
    op: OwnerIds,
)
    requires
        tree_wf(t),
    ensures
        all_entries_have(
            apply_steps(
                apply_steps(t, lockdown_plan(t, at, dir_mode, file_mode, svc, op), at.len() as int),
                reclaim_plan(lockdown_tree(t, dir_mode, file_mode, svc), at, op),
                at.len() as int,
            ),
            op,
            0o700,
        ),
{
    lemma_lockdown_plan_applies(t, at, dir_mode, file_mode, svc, op);
    lemma_lockdown_preserves_wf(t, dir_mode, file_mode, svc);
    lemma_reclaim_plan_applies(lockdown_tree(t, dir_mode, file_mode, svc), at, op);
    lemma_reclaim_restores(lockdown_tree(t, dir_mode, file_mode, svc), op);
}

} // verus!
