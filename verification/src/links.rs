use vstd::prelude::*;
use crate::text::str_eq;

verus! {

/// One capability link: a symlink named by a token, pointing at the
/// directory of the stored file it grants access to.
pub struct LinkEntry {
    pub token: String,
    pub target: String,
}

/// The base directory's link namespace: every capability link that currently
/// exists, as (token, target identifier) pairs.
pub struct LinkDir {
    pub entries: Vec<LinkEntry>,
}

impl View for LinkDir {
    type V = Seq<(Seq<char>, Seq<char>)>;

    open spec fn view(&self) -> Seq<(Seq<char>, Seq<char>)> {
        self.entries@.map_values(|e: LinkEntry| (e.token@, e.target@))
    }
}

/// The predicate that keeps every pair but the one named by the token.
pub open spec fn keep_token(token: Seq<char>) -> spec_fn((Seq<char>, Seq<char>)) -> bool {
    |p: (Seq<char>, Seq<char>)| p.0 != token
}

/// The predicate that keeps every pair not pointing at the target.
pub open spec fn keep_target(target: Seq<char>) -> spec_fn((Seq<char>, Seq<char>)) -> bool {
    |p: (Seq<char>, Seq<char>)| p.1 != target
}

/// The predicate that selects the pairs pointing at the target.
pub open spec fn at_target(target: Seq<char>) -> spec_fn((Seq<char>, Seq<char>)) -> bool {
    |p: (Seq<char>, Seq<char>)| p.1 == target
}

/// Turns a swept pair into the removal of its link.
pub open spec fn removal_of() -> spec_fn((Seq<char>, Seq<char>)) -> LinkActionV {
    |p: (Seq<char>, Seq<char>)| LinkActionV::Remove { token: p.0 }
}

/// Some link carries this token as its name.
pub open spec fn pairs_has_token(ps: Seq<(Seq<char>, Seq<char>)>, token: Seq<char>) -> bool {
    exists|i: int| 0 <= i < ps.len() && (#[trigger] ps[i]).0 == token
}

/// The namespace after removing the link named by the token; removing an
/// absent token changes nothing.
pub open spec fn spec_withdraw(ps: Seq<(Seq<char>, Seq<char>)>, token: Seq<char>) -> Seq<
    (Seq<char>, Seq<char>),
> {
    ps.filter(keep_token(token))
}

/// The namespace after publishing a link: any link already carrying the
/// token is replaced, never an error.
pub open spec fn spec_publish(
    ps: Seq<(Seq<char>, Seq<char>)>,
    token: Seq<char>,
    target: Seq<char>,
) -> Seq<(Seq<char>, Seq<char>)> {
    spec_withdraw(ps, token).push((token, target))
}

/// The namespace after removing every link that points at the identifier.
pub open spec fn spec_sweep(ps: Seq<(Seq<char>, Seq<char>)>, target: Seq<char>) -> Seq<
    (Seq<char>, Seq<char>),
> {
    ps.filter(keep_target(target))
}

/// Well-formed namespace: a filesystem directory holds each name once.
pub open spec fn links_wf(ps: Seq<(Seq<char>, Seq<char>)>) -> bool {
    forall|i: int, j: int| 0 <= i < j < ps.len() ==> (#[trigger] ps[i]).0 != (#[trigger] ps[j]).0
}

/// One filesystem mutation the caller must mirror in the base directory.
pub enum LinkAction {
    Remove { token: String },
    Create { token: String, target: String },
}

/// Mathematical form of a link mutation.
pub enum LinkActionV {
    Remove { token: Seq<char> },
    Create { token: Seq<char>, target: Seq<char> },
}

impl View for LinkAction {
    type V = LinkActionV;

    open spec fn view(&self) -> LinkActionV {
        match self {
            LinkAction::Remove { token } => LinkActionV::Remove { token: token@ },
            LinkAction::Create { token, target } => LinkActionV::Create {
                token: token@,
                target: target@,
            },
        }
    }
}

pub open spec fn link_actions_view(v: Seq<LinkAction>) -> Seq<LinkActionV> {
    v.map_values(|a: LinkAction| a@)
}

proof fn lemma_filter_all_kept<A>(s: Seq<A>, pred: spec_fn(A) -> bool)
    requires
        forall|i: int| 0 <= i < s.len() ==> pred(#[trigger] s[i]),
    ensures
        s.filter(pred) == s,
    decreases s.len(),
{
    reveal(Seq::filter);
    if s.len() > 0 {
        assert forall|i: int| 0 <= i < s.drop_last().len() implies pred(
            #[trigger] s.drop_last()[i],
        ) by {
            assert(s.drop_last()[i] == s[i]);
        }
        lemma_filter_all_kept(s.drop_last(), pred);
        assert(s.filter(pred) =~= s);
    }
}

proof fn lemma_filter_singleton<A>(x: A, pred: spec_fn(A) -> bool)
    ensures
        pred(x) ==> seq![x].filter(pred) == seq![x],
        !pred(x) ==> seq![x].filter(pred) == Seq::<A>::empty(),
{
    reveal_with_fuel(Seq::filter, 2);
    assert(seq![x].drop_last() =~= Seq::<A>::empty());
}

/// A namespace with unique names keeps unique names under any filter.
proof fn lemma_filter_keeps_wf(ps: Seq<(Seq<char>, Seq<char>)>, pred: spec_fn((Seq<char>, Seq<char>)) -> bool)
    requires
        links_wf(ps),
    ensures
        links_wf(ps.filter(pred)),
        forall|i: int|
            0 <= i < ps.filter(pred).len() ==> pairs_has_token(ps, (#[trigger] ps.filter(
                pred,
            )[i]).0),
    decreases ps.len(),
{
    reveal(Seq::filter);
    broadcast use vstd::seq_lib::group_filter_ensures;

    if ps.len() > 0 {
        let dl = ps.drop_last();
        assert(links_wf(dl)) by {
            assert forall|i: int, j: int| 0 <= i < j < dl.len() implies (#[trigger] dl[i]).0 != (
            #[trigger] dl[j]).0 by {
                assert(dl[i] == ps[i] && dl[j] == ps[j]);
            }
        }
        lemma_filter_keeps_wf(dl, pred);
        let f = ps.filter(pred);
        let fd = dl.filter(pred);
        assert forall|i: int| 0 <= i < f.len() implies pairs_has_token(ps, (#[trigger] f[i]).0) by {
            if i < fd.len() {
                assert(f[i] == fd[i]);
                let k = choose|k: int| 0 <= k < dl.len() && (#[trigger] dl[k]).0 == fd[i].0;
                assert(ps[k].0 == f[i].0);
            } else {
                assert(f[i] == ps[ps.len() - 1]);
            }
        }
        assert forall|i: int, j: int| 0 <= i < j < f.len() implies (#[trigger] f[i]).0 != (
        #[trigger] f[j]).0 by {
            if j < fd.len() {
                assert(f[i] == fd[i] && f[j] == fd[j]);
            } else {
                assert(f[j] == ps[ps.len() - 1]);
                assert(f[i] == fd[i]);
                let k = choose|k: int| 0 <= k < dl.len() && (#[trigger] dl[k]).0 == fd[i].0;
                assert(ps[k].0 == fd[i].0);
            }
        }
    }
}

/// Removing the one entry that carries the token is exactly the withdraw of
/// that token, in a namespace where names are unique.
proof fn lemma_remove_is_withdraw(ps: Seq<(Seq<char>, Seq<char>)>, token: Seq<char>, i: int)
    requires
        links_wf(ps),
        0 <= i < ps.len(),
        ps[i].0 == token,
    ensures
        ps.remove(i) == spec_withdraw(ps, token),
{
    let pred = keep_token(token);
    let front = ps.take(i);
    let item = seq![ps[i]];
    let back = ps.skip(i + 1);
    assert(ps =~= front + item + back);
    Seq::filter_distributes_over_add(front + item, back, pred);
    Seq::filter_distributes_over_add(front, item, pred);
    assert forall|k: int| 0 <= k < front.len() implies pred(#[trigger] front[k]) by {
        assert(front[k] == ps[k]);
    }
    assert forall|k: int| 0 <= k < back.len() implies pred(#[trigger] back[k]) by {
        assert(back[k] == ps[k + i + 1]);
    }
    lemma_filter_all_kept(front, pred);
    lemma_filter_all_kept(back, pred);
    lemma_filter_singleton(ps[i], pred);
    assert(ps.remove(i) =~= front + back);
    assert(spec_withdraw(ps, token) =~= front + back);
}

proof fn lemma_action_view_push(v: Seq<LinkAction>, a: LinkAction)
    ensures
        link_actions_view(v.push(a)) == link_actions_view(v).push(a@),
{
    assert(link_actions_view(v.push(a)) =~= link_actions_view(v).push(a@));
}

impl LinkDir {
    /// An empty namespace: no link exists yet.
    pub fn new() -> (d: LinkDir)
        ensures
            d@ == Seq::<(Seq<char>, Seq<char>)>::empty(),
    {
        let d = LinkDir { entries: Vec::new() };
        proof {
            assert(d@ =~= Seq::<(Seq<char>, Seq<char>)>::empty());
        }
        d
    }

    fn find_token_index(&self, token: &str) -> (r: Option<usize>)
        ensures
            r matches Some(i) ==> i < self@.len() && self@[i as int].0 == token@,
            r is None ==> !pairs_has_token(self@, token@),
    {
        let mut i: usize = 0;
        while i < self.entries.len()
            invariant
                0 <= i <= self.entries.len(),
                forall|k: int| 0 <= k < i ==> (#[trigger] self@[k]).0 != token@,
            decreases self.entries.len() - i,
        {
            if str_eq(self.entries[i].token.as_str(), token) {
                return Some(i);
            }
            i += 1;
        }
        None
    }

    /// Whether a live link carries this token.
    pub fn has_token(&self, token: &str) -> (r: bool)
        ensures
            r == pairs_has_token(self@, token@),
    {
        self.find_token_index(token).is_some()
    }

    /// The identifier the link named by this token points at, if the link
    /// exists.
    pub fn resolve(&self, token: &str) -> (r: Option<String>)
        ensures
            r is Some <==> pairs_has_token(self@, token@),
            r matches Some(target) ==> exists|i: int|
                0 <= i < self@.len() && #[trigger] self@[i] == (token@, target@),
    {
        match self.find_token_index(token) {
            Some(i) => {
                let target = self.entries[i].target.clone();
                proof {
                    assert(self@[i as int] == (token@, target@));
                }
                Some(target)
            },
            None => None,
        }
    }

    /// Publish a capability link: whatever already carries the token is
    /// removed first, then the token is bound to the target. The returned
    /// actions are the filesystem mutations, in order.
    pub fn publish(&mut self, token: &str, target: &str) -> (acts: Vec<LinkAction>)
        requires
            links_wf(old(self)@),
        ensures
            final(self)@ == spec_publish(old(self)@, token@, target@),
            links_wf(final(self)@),
            pairs_has_token(old(self)@, token@) ==> link_actions_view(acts@) == seq![
                LinkActionV::Remove { token: token@ },
                LinkActionV::Create { token: token@, target: target@ },
            ],
            !pairs_has_token(old(self)@, token@) ==> link_actions_view(acts@) == seq![
                LinkActionV::Create { token: token@, target: target@ },
            ],
    {
        let ghost ps = old(self)@;
        let mut acts: Vec<LinkAction> = Vec::new();
        match self.find_token_index(token) {
            Some(i) => {
                self.entries.remove(i);
                proof {
                    assert(self@ =~= ps.remove(i as int));
                    lemma_remove_is_withdraw(ps, token@, i as int);
                }
                acts.push(LinkAction::Remove { token: token.to_owned() });
            },
            None => {
                proof {
                    lemma_filter_all_kept(ps, keep_token(token@));
                }
            },
        }
        assert(self@ == spec_withdraw(ps, token@));
        self.entries.push(LinkEntry { token: token.to_owned(), target: target.to_owned() });
        acts.push(LinkAction::Create { token: token.to_owned(), target: target.to_owned() });
        proof {
            assert(self@ =~= spec_withdraw(ps, token@).push((token@, target@)));
            lemma_filter_keeps_wf(ps, keep_token(token@));
            lemma_withdraw_removes(ps, token@);
            let w = spec_withdraw(ps, token@);
            assert forall|i: int, j: int| 0 <= i < j < self@.len() implies (
            #[trigger] self@[i]).0 != (#[trigger] self@[j]).0 by {
                if j < w.len() {
                    assert(self@[i] == w[i] && self@[j] == w[j]);
                } else {
                    assert(self@[j].0 == token@);
                    assert(self@[i] == w[i]);
                }
            }
            if pairs_has_token(ps, token@) {
                assert(link_actions_view(acts@) =~= seq![
                    LinkActionV::Remove { token: token@ },
                    LinkActionV::Create { token: token@, target: target@ },
                ]);
            } else {
                assert(link_actions_view(acts@) =~= seq![
                    LinkActionV::Create { token: token@, target: target@ },
                ]);
            }
        }
        acts
    }

    /// Withdraw the link named by the token; a token with no link is a
    /// no-op, not an error.
    pub fn withdraw(&mut self, token: &str) -> (acts: Vec<LinkAction>)
        requires
            links_wf(old(self)@),
        ensures
            final(self)@ == spec_withdraw(old(self)@, token@),
            links_wf(final(self)@),
            pairs_has_token(old(self)@, token@) ==> link_actions_view(acts@) == seq![
                LinkActionV::Remove { token: token@ },
            ],
            !pairs_has_token(old(self)@, token@) ==> acts@.len() == 0 && final(self)@ == old(
                self,
            )@,
    {
        let ghost ps = old(self)@;
        let mut acts: Vec<LinkAction> = Vec::new();
        match self.find_token_index(token) {
            Some(i) => {
                self.entries.remove(i);
                proof {
                    assert(self@ =~= ps.remove(i as int));
                    lemma_remove_is_withdraw(ps, token@, i as int);
                }
                acts.push(LinkAction::Remove { token: token.to_owned() });
                proof {
                    assert(link_actions_view(acts@) =~= seq![
                        LinkActionV::Remove { token: token@ },
                    ]);
                }
            },
            None => {
                proof {
                    lemma_filter_all_kept(ps, keep_token(token@));
                }
            },
        }
        proof {
            lemma_filter_keeps_wf(ps, keep_token(token@));
        }
        acts
    }

    /// Remove every link whose target is the identifier, whoever it was
    /// issued to: the safety net run before a file is deleted. The number of
    /// links removed is the number of actions returned.
    pub fn sweep_by_target(&mut self, target: &str) -> (acts: Vec<LinkAction>)
        requires
            links_wf(old(self)@),
        ensures
            final(self)@ == spec_sweep(old(self)@, target@),
            links_wf(final(self)@),
            link_actions_view(acts@) == old(self)@.filter(at_target(target@)).map_values(
                removal_of(),
            ),
            acts@.len() + final(self)@.len() == old(self)@.len(),
    {
        let ghost ps = old(self)@;
        let mut kept: Vec<LinkEntry> = Vec::new();
        let mut acts: Vec<LinkAction> = Vec::new();
        let mut i: usize = 0;
        proof {
            reveal(Seq::filter);
            assert(ps.take(0) =~= Seq::<(Seq<char>, Seq<char>)>::empty());
            assert(ps.take(0).filter(keep_target(target@)) =~= Seq::<
                (Seq<char>, Seq<char>),
            >::empty());
            assert(ps.take(0).filter(at_target(target@)) =~= Seq::<
                (Seq<char>, Seq<char>),
            >::empty());
            assert(kept@.map_values(|e: LinkEntry| (e.token@, e.target@)) =~= Seq::<
                (Seq<char>, Seq<char>),
            >::empty());
            assert(link_actions_view(acts@) =~= Seq::<LinkActionV>::empty());
            assert(Seq::<(Seq<char>, Seq<char>)>::empty().map_values(removal_of()) =~= Seq::<
                LinkActionV,
            >::empty());
        }
        while i < self.entries.len()
            invariant
                0 <= i <= self.entries.len(),
                ps == self@,
                links_wf(ps),
                kept@.map_values(|e: LinkEntry| (e.token@, e.target@)) == ps.take(
                    i as int,
                ).filter(keep_target(target@)),
                link_actions_view(acts@) == ps.take(i as int).filter(at_target(target@))
                    .map_values(removal_of()),
                kept@.len() + acts@.len() == i,
            decreases self.entries.len() - i,
        {
            let ghost keepf = keep_target(target@);
            let ghost gonef = at_target(target@);
            let ghost mapf = removal_of();
            proof {
                assert(ps.take(i as int + 1) =~= ps.take(i as int) + seq![ps[i as int]]);
                Seq::filter_distributes_over_add(ps.take(i as int), seq![ps[i as int]], keepf);
                Seq::filter_distributes_over_add(ps.take(i as int), seq![ps[i as int]], gonef);
                lemma_filter_singleton(ps[i as int], keepf);
                lemma_filter_singleton(ps[i as int], gonef);
            }
            let e = &self.entries[i];
            proof {
                assert(ps[i as int] == (e.token@, e.target@));
            }
            if str_eq(e.target.as_str(), target) {
                let act = LinkAction::Remove { token: e.token.clone() };
                proof {
                    lemma_action_view_push(acts@, act);
                }
                acts.push(act);
                proof {
                    assert(gonef(ps[i as int]));
                    assert(ps.take(i as int + 1).filter(gonef) == ps.take(i as int).filter(
                        gonef,
                    ) + seq![ps[i as int]]);
                    assert(link_actions_view(acts@) =~= ps.take(i as int + 1).filter(
                        gonef,
                    ).map_values(mapf));
                }
            } else {
                kept.push(LinkEntry { token: e.token.clone(), target: e.target.clone() });
                proof {
                    assert(keepf(ps[i as int]));
                    assert(kept@.map_values(|en: LinkEntry| (en.token@, en.target@)) =~= ps.take(
                        i as int + 1,
                    ).filter(keepf));
                }
            }
            i += 1;
        }
        proof {
            assert(ps.take(ps.len() as int) =~= ps);
        }
        self.entries = kept;
        proof {
            lemma_filter_keeps_wf(ps, keep_target(target@));
            broadcast use vstd::seq_lib::group_filter_ensures;

        }
        acts
    }
}

/// Law: publishing the same token twice replaces rather than errors — the
/// namespace after the second publish is the namespace after the first.
pub proof fn lemma_publish_idempotent(
    ps: Seq<(Seq<char>, Seq<char>)>,
    token: Seq<char>,
    target: Seq<char>,
)
    ensures
        spec_publish(spec_publish(ps, token, target), token, target) == spec_publish(
            ps,
            token,
            target,
        ),
{
    broadcast use vstd::seq_lib::group_filter_ensures;

    let pred = keep_token(token);
    let once = spec_publish(ps, token, target);
    let w = spec_withdraw(ps, token);
    assert(once =~= w + seq![(token, target)]);
    Seq::filter_distributes_over_add(w, seq![(token, target)], pred);
    lemma_filter_singleton((token, target), pred);
    assert forall|i: int| 0 <= i < w.len() implies pred(#[trigger] w[i]) by {
        ps.lemma_filter_pred(pred, i);
    }
    lemma_filter_all_kept(w, pred);
    assert(spec_withdraw(once, token) =~= w);
}

/// Law: withdrawing a token that has no link leaves the namespace unchanged.
pub proof fn lemma_withdraw_absent_noop(ps: Seq<(Seq<char>, Seq<char>)>, token: Seq<char>)
    requires
        !pairs_has_token(ps, token),
    ensures
        spec_withdraw(ps, token) == ps,
{
    lemma_filter_all_kept(ps, keep_token(token));
}

/// After a withdraw, no link carries the withdrawn token.
pub proof fn lemma_withdraw_removes(ps: Seq<(Seq<char>, Seq<char>)>, token: Seq<char>)
    ensures
        !pairs_has_token(spec_withdraw(ps, token), token),
{
    broadcast use vstd::seq_lib::group_filter_ensures;

    let w = spec_withdraw(ps, token);
    assert forall|i: int| 0 <= i < w.len() implies (#[trigger] w[i]).0 != token by {
        ps.lemma_filter_pred(keep_token(token), i);
    }
}

} // verus!
