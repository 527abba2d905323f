use vstd::prelude::*;
use crate::errors::StoreError;
use crate::text::str_eq;

verus! {

/// One recorded file: its identifier, its sanitized name and when it was
/// added.
pub struct FileRow {
    pub identifier: String,
    pub filename: String,
    pub date_added: i64,
}

/// Mathematical form of a file row.
#[verifier::ext_equal]
pub struct FileRowV {
    pub identifier: Seq<char>,
    pub filename: Seq<char>,
    pub date_added: int,
}

impl View for FileRow {
    type V = FileRowV;

    open spec fn view(&self) -> FileRowV {
        FileRowV {
            identifier: self.identifier@,
            filename: self.filename@,
            date_added: self.date_added as int,
        }
    }
}

/// One recorded grant: the historical record of a capability, kept after
/// revocation.
pub struct ShareRow {
    pub identifier: String,
    pub recipient: String,
    pub token: String,
    pub date_shared: i64,
    pub date_removed: Option<i64>,
    pub active: bool,
}

/// Mathematical form of a share row.
#[verifier::ext_equal]
pub struct ShareRowV {
    pub identifier: Seq<char>,
    pub recipient: Seq<char>,
    pub token: Seq<char>,
    pub date_shared: int,
    pub date_removed: Option<int>,
    pub active: bool,
}

impl View for ShareRow {
    type V = ShareRowV;

    open spec fn view(&self) -> ShareRowV {
        ShareRowV {
            identifier: self.identifier@,
            recipient: self.recipient@,
            token: self.token@,
            date_shared: self.date_shared as int,
            date_removed: match self.date_removed {
                Some(d) => Some(d as int),
                None => None,
            },
            active: self.active,
        }
    }
}

/// The row store: the files table and the shares table.
pub struct Ledger {
    pub files: Vec<FileRow>,
    pub shares: Vec<ShareRow>,
}

/// Mathematical form of the ledger.
#[verifier::ext_equal]
pub struct LedgerV {
    pub files: Seq<FileRowV>,
    pub shares: Seq<ShareRowV>,
}

impl View for Ledger {
    type V = LedgerV;

    open spec fn view(&self) -> LedgerV {
        LedgerV {
            files: file_rows_view(self.files@),
            shares: share_rows_view(self.shares@),
        }
    }
}

/// The file rows of an executable table, in mathematical form.
pub open spec fn file_rows_view(v: Seq<FileRow>) -> Seq<FileRowV> {
    v.map_values(|r: FileRow| r@)
}

/// The share rows of an executable table, in mathematical form.
pub open spec fn share_rows_view(v: Seq<ShareRow>) -> Seq<ShareRowV> {
    v.map_values(|r: ShareRow| r@)
}

/// The (identifier, date added) pairs of a name listing, in mathematical
/// form.
pub open spec fn summaries_view(v: Seq<(String, i64)>) -> Seq<(Seq<char>, int)> {
    v.map_values(|p: (String, i64)| (p.0@, p.1 as int))
}

/// A file row with this identifier exists.
pub open spec fn files_has(files: Seq<FileRowV>, identifier: Seq<char>) -> bool {
    exists|i: int| 0 <= i < files.len() && (#[trigger] files[i]).identifier == identifier
}

/// A share row for this (identifier, recipient) pair exists.
pub open spec fn shares_has_key(
    shares: Seq<ShareRowV>,
    identifier: Seq<char>,
    recipient: Seq<char>,
) -> bool {
    exists|i: int|
        0 <= i < shares.len() && (#[trigger] shares[i]).identifier == identifier
            && shares[i].recipient == recipient
}

/// Keeps the file rows whose identifier differs.
pub open spec fn file_not_id(identifier: Seq<char>) -> spec_fn(FileRowV) -> bool {
    |f: FileRowV| f.identifier != identifier
}

/// Selects the file rows carrying this filename.
pub open spec fn file_named(name: Seq<char>) -> spec_fn(FileRowV) -> bool {
    |f: FileRowV| f.filename == name
}

/// Keeps the share rows whose (identifier, recipient) key differs.
pub open spec fn share_not_key(identifier: Seq<char>, recipient: Seq<char>) -> spec_fn(
    ShareRowV,
) -> bool {
    |s: ShareRowV| !(s.identifier == identifier && s.recipient == recipient)
}

/// Selects the share rows of one identifier.
pub open spec fn share_of(identifier: Seq<char>) -> spec_fn(ShareRowV) -> bool {
    |s: ShareRowV| s.identifier == identifier
}

/// A file row reduced to (identifier, date added), as a name listing shows
/// it.
pub open spec fn file_summary() -> spec_fn(FileRowV) -> (Seq<char>, int) {
    |f: FileRowV| (f.identifier, f.date_added)
}

/// Marks every grant of the identifier revoked at `now`, keeping its
/// history.
pub open spec fn revoke_of(identifier: Seq<char>, now: int) -> spec_fn(ShareRowV) -> ShareRowV {
    |s: ShareRowV|
        if s.identifier == identifier {
            ShareRowV { active: false, date_removed: Some(now), ..s }
        } else {
            s
        }
}

/// Marks the one active grant of (identifier, recipient) revoked at `now`.
pub open spec fn revoke_one_of(identifier: Seq<char>, recipient: Seq<char>, now: int) -> spec_fn(
    ShareRowV,
) -> ShareRowV {
    |s: ShareRowV|
        if s.identifier == identifier && s.recipient == recipient && s.active {
            ShareRowV { active: false, date_removed: Some(now), ..s }
        } else {
            s
        }
}

/// Unique primary keys: one row per identifier in `files`, one row per
/// (identifier, recipient) pair in `shares`.
pub open spec fn ledger_wf(l: LedgerV) -> bool {
    &&& forall|i: int, j: int|
        0 <= i < j < l.files.len() ==> (#[trigger] l.files[i]).identifier != (
        #[trigger] l.files[j]).identifier
    &&& forall|i: int, j: int|
        0 <= i < j < l.shares.len() ==> !((#[trigger] l.shares[i]).identifier == (
        #[trigger] l.shares[j]).identifier && l.shares[i].recipient == l.shares[j].recipient)
}

proof fn lemma_filter_all_kept<A>(s: Seq<A>, pred: spec_fn(A) -> bool)
    requires
        forall|i: int| 0 <= i < s.len() ==> pred(#[trigger] s[i]),
    ensures
        s.filter(pred) == s,
    decreases s.len(),
{
    reveal(Seq::filter);
    if s.len() > 0 {
        assert forall|i: int| 0 <= i < s.drop_last().len() implies pred(
            #[trigger] s.drop_last()[i],
        ) by {
            assert(s.drop_last()[i] == s[i]);
        }
        lemma_filter_all_kept(s.drop_last(), pred);
        assert(s.filter(pred) =~= s);
    }
}

proof fn lemma_filter_singleton<A>(x: A, pred: spec_fn(A) -> bool)
    ensures
        pred(x) ==> seq![x].filter(pred) == seq![x],
        !pred(x) ==> seq![x].filter(pred) == Seq::<A>::empty(),
{
    reveal_with_fuel(Seq::filter, 2);
    assert(seq![x].drop_last() =~= Seq::<A>::empty());
}

/// A filter of a seq is one of its subsequences: every kept element stands
/// in the original, and in the same relative order. Stated here as: the
/// filtered rows pairwise satisfy any property that held pairwise of the
/// original rows.
proof fn lemma_filter_keeps_pairwise<A>(
    s: Seq<A>,
    pred: spec_fn(A) -> bool,
    rel: spec_fn(A, A) -> bool,
)
    requires
        forall|i: int, j: int| 0 <= i < j < s.len() ==> #[trigger] rel(s[i], s[j]),
    ensures
        forall|i: int, j: int|
            0 <= i < j < s.filter(pred).len() ==> #[trigger] rel(
                s.filter(pred)[i],
                s.filter(pred)[j],
            ),
        forall|i: int|
            0 <= i < s.filter(pred).len() ==> exists|k: int|
                0 <= k < s.len() && #[trigger] s.filter(pred)[i] == s[k],
    decreases s.len(),
{
    reveal(Seq::filter);
    if s.len() > 0 {
        let dl = s.drop_last();
        assert forall|i: int, j: int| 0 <= i < j < dl.len() implies #[trigger] rel(
            dl[i],
            dl[j],
        ) by {
            assert(dl[i] == s[i] && dl[j] == s[j]);
        }
        lemma_filter_keeps_pairwise(dl, pred, rel);
        let f = s.filter(pred);
        let fd = dl.filter(pred);
        assert forall|i: int| 0 <= i < f.len() implies exists|k: int|
            0 <= k < s.len() && #[trigger] f[i] == s[k] by {
            if i < fd.len() {
                assert(f[i] == fd[i]);
                let k = choose|k: int| 0 <= k < dl.len() && #[trigger] fd[i] == dl[k];
                assert(f[i] == s[k]);
            } else {
                assert(f[i] == s[s.len() - 1]);
            }
        }
        assert forall|i: int, j: int| 0 <= i < j < f.len() implies #[trigger] rel(f[i], f[j]) by {
            if j < fd.len() {
                assert(f[i] == fd[i] && f[j] == fd[j]);
            } else {
                assert(f[j] == s[s.len() - 1]);
                assert(f[i] == fd[i]);
                let k = choose|k: int| 0 <= k < dl.len() && #[trigger] fd[i] == dl[k];
                assert(dl[k] == s[k]);
                assert(rel(s[k], s[s.len() - 1]));
            }
        }
    }
}

/// Removing one row that matches the key is exactly filtering that key out,
/// when keys are unique. `pred` keeps a row, `i` is the one row failing it.
proof fn lemma_remove_is_filter<A>(s: Seq<A>, pred: spec_fn(A) -> bool, i: int)
    requires
        0 <= i < s.len(),
        !pred(s[i]),
        forall|k: int| 0 <= k < s.len() && k != i ==> pred(#[trigger] s[k]),
    ensures
        s.remove(i) == s.filter(pred),
{
    let front = s.take(i);
    let item = seq![s[i]];
    let back = s.skip(i + 1);
    assert(s =~= front + item + back);
    Seq::filter_distributes_over_add(front + item, back, pred);
    Seq::filter_distributes_over_add(front, item, pred);
    assert forall|k: int| 0 <= k < front.len() implies pred(#[trigger] front[k]) by {
        assert(front[k] == s[k]);
    }
    assert forall|k: int| 0 <= k < back.len() implies pred(#[trigger] back[k]) by {
        assert(back[k] == s[k + i + 1]);
    }
    lemma_filter_all_kept(front, pred);
    lemma_filter_all_kept(back, pred);
    lemma_filter_singleton(s[i], pred);
    assert(s.remove(i) =~= front + back);
    assert(s.filter(pred) =~= front + back);
}

impl FileRow {
    /// A field-for-field copy of the row.
    pub fn duplicate(&self) -> (r: FileRow)
        ensures
            r@ == self@,
    {
        FileRow {
            identifier: self.identifier.clone(),
            filename: self.filename.clone(),
            date_added: self.date_added,
        }
    }
}

impl ShareRow {
    /// A field-for-field copy of the row.
    pub fn duplicate(&self) -> (r: ShareRow)
        ensures
            r@ == self@,
    {
        ShareRow {
            identifier: self.identifier.clone(),
            recipient: self.recipient.clone(),
            token: self.token.clone(),
            date_shared: self.date_shared,
            date_removed: self.date_removed,
            active: self.active,
        }
    }
}

impl Ledger {
    /// An empty ledger.
    pub fn new() -> (l: Ledger)
        ensures
            l@.files == Seq::<FileRowV>::empty(),
            l@.shares == Seq::<ShareRowV>::empty(),
            ledger_wf(l@),
    {
        let l = Ledger { files: Vec::new(), shares: Vec::new() };
        proof {
            assert(l@.files =~= Seq::<FileRowV>::empty());
            assert(l@.shares =~= Seq::<ShareRowV>::empty());
        }
        l
    }

    fn find_file_index(&self, identifier: &str) -> (r: Option<usize>)
        ensures
            r matches Some(i) ==> i < self@.files.len() && self@.files[i as int].identifier
                == identifier@,
            r is None ==> !files_has(self@.files, identifier@),
    {
        let mut i: usize = 0;
        while i < self.files.len()
            invariant
                0 <= i <= self.files.len(),
                forall|k: int| 0 <= k < i ==> (#[trigger] self@.files[k]).identifier != identifier@,
            decreases self.files.len() - i,
        {
            if str_eq(self.files[i].identifier.as_str(), identifier) {
                return Some(i);
            }
            i += 1;
        }
        None
    }

    fn find_share_index(&self, identifier: &str, recipient: &str) -> (r: Option<usize>)
        ensures
            r matches Some(i) ==> i < self@.shares.len() && self@.shares[i as int].identifier
                == identifier@ && self@.shares[i as int].recipient == recipient@,
            r is None ==> !shares_has_key(self@.shares, identifier@, recipient@),
    {
        let mut i: usize = 0;
        while i < self.shares.len()
            invariant
                0 <= i <= self.shares.len(),
                forall|k: int|
                    0 <= k < i ==> !((#[trigger] self@.shares[k]).identifier == identifier@
                        && self@.shares[k].recipient == recipient@),
            decreases self.shares.len() - i,
        {
            if str_eq(self.shares[i].identifier.as_str(), identifier) && str_eq(
                self.shares[i].recipient.as_str(),
                recipient,
            ) {
                return Some(i);
            }
            i += 1;
        }
        None
    }

    /// Whether a file with this identifier is recorded.
    pub fn has_file(&self, identifier: &str) -> (r: bool)
        ensures
            r == files_has(self@.files, identifier@),
    {
        self.find_file_index(identifier).is_some()
    }

    /// Record a freshly added file. An identifier that is already recorded
    /// is a collision and is fatal: the ledger is left unchanged.
    pub fn insert_file(&mut self, identifier: &str, filename: &str, now: i64) -> (r: Result<
        (),
        StoreError,
    >)
        requires
            ledger_wf(old(self)@),
        ensures
            ledger_wf(final(self)@),
            files_has(old(self)@.files, identifier@) ==> r == Err::<(), StoreError>(
                StoreError::DuplicateIdentifier,
            ) && final(self)@ == old(self)@,
            !files_has(old(self)@.files, identifier@) ==> r == Ok::<(), StoreError>(())
                && final(self)@.files == old(self)@.files.push(
                FileRowV { identifier: identifier@, filename: filename@, date_added: now as int },
            ) && final(self)@.shares == old(self)@.shares,
    {
        if self.has_file(identifier) {
            return Err(StoreError::DuplicateIdentifier);
        }
        let ghost fs = self@.files;
        self.files.push(
            FileRow {
                identifier: identifier.to_owned(),
                filename: filename.to_owned(),
                date_added: now,
            },
        );
        proof {
            assert(self@.files =~= fs.push(
                FileRowV { identifier: identifier@, filename: filename@, date_added: now as int },
            ));
            assert(self@.shares =~= old(self)@.shares);
            assert forall|i: int, j: int|
                0 <= i < j < self@.files.len() implies (#[trigger] self@.files[i]).identifier != (
                #[trigger] self@.files[j]).identifier by {
                if j == self@.files.len() - 1 {
                    assert(self@.files[i] == fs[i]);
                }
            }
        }
        Ok(())
    }

    /// Every recorded (identifier, date added) pair carrying this filename,
    /// in the order the files were recorded.
    pub fn find_by_name(&self, filename: &str) -> (r: Vec<(String, i64)>)
        ensures
            summaries_view(r@) == self@.files.filter(
                file_named(filename@),
            ).map_values(file_summary()),
    {
        let ghost fs = self@.files;
        let mut r: Vec<(String, i64)> = Vec::new();
        let mut i: usize = 0;
        proof {
            reveal(Seq::filter);
            assert(fs.take(0) =~= Seq::<FileRowV>::empty());
            assert(summaries_view(r@) =~= fs.take(0).filter(
                file_named(filename@),
            ).map_values(file_summary()));
        }
        while i < self.files.len()
            invariant
                0 <= i <= self.files.len(),
                fs == self@.files,
                summaries_view(r@) == fs.take(i as int).filter(
                    file_named(filename@),
                ).map_values(file_summary()),
            decreases self.files.len() - i,
        {
            let ghost named = file_named(filename@);
            let ghost summary = file_summary();
            proof {
                assert(fs.take(i as int + 1) =~= fs.take(i as int) + seq![fs[i as int]]);
                Seq::filter_distributes_over_add(fs.take(i as int), seq![fs[i as int]], named);
                lemma_filter_singleton(fs[i as int], named);
            }
            let row = &self.files[i];
            proof {
                assert(fs[i as int] == row@);
                assert(summaries_view(r@).len() == r@.len());
                assert(fs.take(i as int).filter(named).map_values(summary).len() == fs.take(
                    i as int,
                ).filter(named).len());
                assert(r@.len() == fs.take(i as int).filter(named).len());
            }
            let ghost r0 = r@;
            if str_eq(row.filename.as_str(), filename) {
                r.push((row.identifier.clone(), row.date_added));
                proof {
                    assert(fs.take(i as int + 1).filter(named) == fs.take(i as int).filter(
                        named,
                    ) + seq![fs[i as int]]);
                    let lhs = summaries_view(r@);
                    let rhs = fs.take(i as int + 1).filter(named).map_values(summary);
                    let mid = fs.take(i as int).filter(named);
                    assert(lhs.len() == r@.len());
                    assert(rhs.len() == mid.len() + 1);
                    assert forall|k: int| 0 <= k < lhs.len() implies lhs[k] == rhs[k] by {
                        assert(lhs[k] == (r@[k].0@, r@[k].1 as int));
                        assert(rhs[k] == summary((mid + seq![fs[i as int]])[k]));
                        if k < r0.len() {
                            assert(r@[k] == r0[k]);
                            assert(summaries_view(r0)[k] == (r0[k].0@, r0[k].1 as int));
                            assert(summaries_view(r0)[k] == mid.map_values(summary)[k]);
                            assert(mid.map_values(summary)[k] == summary(mid[k]));
                            assert((mid + seq![fs[i as int]])[k] == mid[k]);
                        } else {
                            assert((mid + seq![fs[i as int]])[k] == fs[i as int]);
                        }
                    }
                    assert(lhs =~= rhs);
                }
            } else {
                proof {
                    assert(fs.take(i as int + 1).filter(named) =~= fs.take(i as int).filter(
                        named,
                    ));
                    assert(summaries_view(r@) =~~= fs.take(i as int + 1).filter(
                        named,
                    ).map_values(summary));
                }
            }
            i += 1;
        }
        proof {
            assert(fs.take(fs.len() as int) =~= fs);
        }
        r
    }

    /// The recorded row of this identifier, if any.
    pub fn find_by_identifier(&self, identifier: &str) -> (r: Option<FileRow>)
        ensures
            r is Some <==> files_has(self@.files, identifier@),
            r matches Some(f) ==> exists|i: int|
                0 <= i < self@.files.len() && #[trigger] self@.files[i] == f@ && f@.identifier
                    == identifier@,
    {
        match self.find_file_index(identifier) {
            Some(i) => {
                let f = self.files[i].duplicate();
                proof {
                    assert(self@.files[i as int] == f@);
                }
                Some(f)
            },
            None => None,
        }
    }

    /// Record a grant: an existing row for the same (identifier, recipient)
    /// pair is replaced, and the new row is active with no revocation date.
    pub fn upsert_share(&mut self, identifier: &str, recipient: &str, token: &str, now: i64)
        requires
            ledger_wf(old(self)@),
        ensures
            ledger_wf(final(self)@),
            final(self)@.files == old(self)@.files,
            final(self)@.shares == old(self)@.shares.filter(
                share_not_key(identifier@, recipient@),
            ).push(
                ShareRowV {
                    identifier: identifier@,
                    recipient: recipient@,
                    token: token@,
                    date_shared: now as int,
                    date_removed: None,
                    active: true,
                },
            ),
    {
        let ghost ss = self@.shares;
        let ghost keep = share_not_key(identifier@, recipient@);
        match self.find_share_index(identifier, recipient) {
            Some(idx) => {
                self.shares.remove(idx);
                proof {
                    assert(self@.shares =~= ss.remove(idx as int));
                    assert forall|k: int| 0 <= k < ss.len() && k != idx implies keep(
                        (#[trigger] ss[k]),
                    ) by {
                        if k > idx {
                            assert(!(ss[idx as int].identifier == ss[k].identifier
                                && ss[idx as int].recipient == ss[k].recipient));
                        }
                    }
                    lemma_remove_is_filter(ss, keep, idx as int);
                }
            },
            None => {
                proof {
                    lemma_filter_all_kept(ss, keep);
                }
            },
        }
        assert(self@.shares == ss.filter(keep));
        self.shares.push(
            ShareRow {
                identifier: identifier.to_owned(),
                recipient: recipient.to_owned(),
                token: token.to_owned(),
                date_shared: now,
                date_removed: None,
                active: true,
            },
        );
        proof {
            assert(self@.shares =~= ss.filter(keep).push(
                ShareRowV {
                    identifier: identifier@,
                    recipient: recipient@,
                    token: token@,
                    date_shared: now as int,
                    date_removed: None,
                    active: true,
                },
            ));
            assert(self@.files =~= old(self)@.files);
            let rel = |a: ShareRowV, b: ShareRowV|
                !(a.identifier == b.identifier && a.recipient == b.recipient);
            assert forall|i: int, j: int| 0 <= i < j < ss.len() implies #[trigger] rel(
                ss[i],
                ss[j],
            ) by {}
            lemma_filter_keeps_pairwise(ss, keep, rel);
            broadcast use vstd::seq_lib::group_filter_ensures;

            let w = ss.filter(keep);
            assert forall|i: int, j: int|
                0 <= i < j < self@.shares.len() implies !((#[trigger] self@.shares[i]).identifier
                == (#[trigger] self@.shares[j]).identifier && self@.shares[i].recipient
                == self@.shares[j].recipient) by {
                if j < w.len() {
                    assert(self@.shares[i] == w[i] && self@.shares[j] == w[j]);
                    assert(rel(w[i], w[j]));
                } else {
                    assert(self@.shares[i] == w[i]);
                    ss.lemma_filter_pred(keep, i);
                }
            }
        }
    }

    /// Mark every grant of the identifier revoked at `now`; the rows stay
    /// for history.
    pub fn deactivate_shares_for(&mut self, identifier: &str, now: i64)
        requires
            ledger_wf(old(self)@),
        ensures
            ledger_wf(final(self)@),
            final(self)@.files == old(self)@.files,
            final(self)@.shares == old(self)@.shares.map_values(revoke_of(identifier@, now as int)),
    {
        let ghost ss = self@.shares;
        let mut updated: Vec<ShareRow> = Vec::new();
        let mut i: usize = 0;
        proof {
            assert(share_rows_view(updated@) =~= ss.take(0).map_values(
                revoke_of(identifier@, now as int),
            ));
        }
        while i < self.shares.len()
            invariant
                0 <= i <= self.shares.len(),
                ss == self@.shares,
                share_rows_view(updated@) == ss.take(i as int).map_values(
                    revoke_of(identifier@, now as int),
                ),
            decreases self.shares.len() - i,
        {
            let ghost f = revoke_of(identifier@, now as int);
            let row = &self.shares[i];
            proof {
                assert(ss[i as int] == row@);
                assert(share_rows_view(updated@).len() == updated@.len());
                assert(ss.take(i as int).map_values(f).len() == i);
                assert(updated@.len() == i);
            }
            let ghost up0 = updated@;
            if str_eq(row.identifier.as_str(), identifier) {
                updated.push(
                    ShareRow {
                        identifier: row.identifier.clone(),
                        recipient: row.recipient.clone(),
                        token: row.token.clone(),
                        date_shared: row.date_shared,
                        date_removed: Some(now),
                        active: false,
                    },
                );
            } else {
                updated.push(row.duplicate());
            }
            proof {
                assert(ss.take(i as int + 1) =~= ss.take(i as int).push(ss[i as int]));
                let lhs = share_rows_view(updated@);
                let rhs = ss.take(i as int + 1).map_values(f);
                assert(share_rows_view(updated@).len() == updated@.len());
                assert(updated@.len() == i + 1);
                assert(ss.take(i as int + 1).map_values(f).len() == i + 1);
                assert(lhs.len() == rhs.len());
                assert forall|k: int| 0 <= k < lhs.len() implies lhs[k] == rhs[k] by {
                    assert(rhs[k] == f(ss.take(i as int + 1)[k]));
                    assert(ss.take(i as int + 1)[k] == ss[k]);
                    assert(lhs[k] == updated@[k]@);
                    if k < i {
                        assert(updated@[k] == up0[k]);
                        assert(share_rows_view(up0)[k] == up0[k]@);
                        assert(share_rows_view(up0)[k] == ss.take(i as int).map_values(f)[k]);
                        assert(ss.take(i as int).map_values(f)[k] == f(ss.take(i as int)[k]));
                        assert(ss.take(i as int)[k] == ss[k]);
                    } else {
                        assert(updated@[k]@ =~~= f(ss[k]));
                    }
                }
                assert(lhs =~= rhs);
            }
            i += 1;
        }
        proof {
            assert(ss.take(ss.len() as int) =~= ss);
        }
        self.shares = updated;
        proof {
            let f = revoke_of(identifier@, now as int);
            assert(self@.files =~= old(self)@.files);
            let m = ss.map_values(f);
            assert forall|i: int, j: int|
                0 <= i < j < m.len() implies !((#[trigger] m[i]).identifier == (
            #[trigger] m[j]).identifier && m[i].recipient == m[j].recipient) by {
                assert(m[i].identifier == ss[i].identifier && m[i].recipient == ss[i].recipient);
                assert(m[j].identifier == ss[j].identifier && m[j].recipient == ss[j].recipient);
            }
        }
    }

    /// Mark the active grant of (identifier, recipient) revoked at `now`;
    /// revoking where no active grant exists changes nothing.
    pub fn deactivate_share(&mut self, identifier: &str, recipient: &str, now: i64)
        requires
            ledger_wf(old(self)@),
        ensures
            ledger_wf(final(self)@),
            final(self)@.files == old(self)@.files,
            final(self)@.shares == old(self)@.shares.map_values(
                revoke_one_of(identifier@, recipient@, now as int),
            ),
    {
        let ghost ss = self@.shares;
        let mut updated: Vec<ShareRow> = Vec::new();
        let mut i: usize = 0;
        proof {
            assert(share_rows_view(updated@) =~= ss.take(0).map_values(
                revoke_one_of(identifier@, recipient@, now as int),
            ));
        }
        while i < self.shares.len()
            invariant
                0 <= i <= self.shares.len(),
                ss == self@.shares,
                share_rows_view(updated@) == ss.take(i as int).map_values(
                    revoke_one_of(identifier@, recipient@, now as int),
                ),
            decreases self.shares.len() - i,
        {
            let ghost f = revoke_one_of(identifier@, recipient@, now as int);
            let row = &self.shares[i];
            proof {
                assert(ss[i as int] == row@);
                assert(share_rows_view(updated@).len() == updated@.len());
                assert(ss.take(i as int).map_values(f).len() == i);
                assert(updated@.len() == i);
            }
            let ghost up0 = updated@;
            if str_eq(row.identifier.as_str(), identifier) && str_eq(
                row.recipient.as_str(),
                recipient,
            ) && row.active {
                updated.push(
                    ShareRow {
                        identifier: row.identifier.clone(),
                        recipient: row.recipient.clone(),
                        token: row.token.clone(),
                        date_shared: row.date_shared,
                        date_removed: Some(now),
                        active: false,
                    },
                );
            } else {
                updated.push(row.duplicate());
            }
            proof {
                assert(ss.take(i as int + 1) =~= ss.take(i as int).push(ss[i as int]));
                let lhs = share_rows_view(updated@);
                let rhs = ss.take(i as int + 1).map_values(f);
                assert(share_rows_view(updated@).len() == updated@.len());
                assert(updated@.len() == i + 1);
                assert(ss.take(i as int + 1).map_values(f).len() == i + 1);
                assert(lhs.len() == rhs.len());
                assert forall|k: int| 0 <= k < lhs.len() implies lhs[k] == rhs[k] by {
                    assert(rhs[k] == f(ss.take(i as int + 1)[k]));
                    assert(ss.take(i as int + 1)[k] == ss[k]);
                    assert(lhs[k] == updated@[k]@);
                    if k < i {
                        assert(updated@[k] == up0[k]);
                        assert(share_rows_view(up0)[k] == up0[k]@);
                        assert(share_rows_view(up0)[k] == ss.take(i as int).map_values(f)[k]);
                        assert(ss.take(i as int).map_values(f)[k] == f(ss.take(i as int)[k]));
                        assert(ss.take(i as int)[k] == ss[k]);
                    } else {
                        assert(updated@[k]@ =~~= f(ss[k]));
                    }
                }
                assert(lhs =~= rhs);
            }
            i += 1;
        }
        proof {
            assert(ss.take(ss.len() as int) =~= ss);
        }
        self.shares = updated;
        proof {
            let f = revoke_one_of(identifier@, recipient@, now as int);
            assert(self@.files =~= old(self)@.files);
            let m = ss.map_values(f);
            assert forall|i: int, j: int|
                0 <= i < j < m.len() implies !((#[trigger] m[i]).identifier == (
            #[trigger] m[j]).identifier && m[i].recipient == m[j].recipient) by {
                assert(m[i].identifier == ss[i].identifier && m[i].recipient == ss[i].recipient);
                assert(m[j].identifier == ss[j].identifier && m[j].recipient == ss[j].recipient);
            }
        }
    }

    /// Forget the file row of this identifier; its grant history stays.
    pub fn delete_file(&mut self, identifier: &str)
        requires
            ledger_wf(old(self)@),
        ensures
            ledger_wf(final(self)@),
            final(self)@.files == old(self)@.files.filter(file_not_id(identifier@)),
            final(self)@.shares == old(self)@.shares,
    {
        let ghost fs = self@.files;
        let mut kept: Vec<FileRow> = Vec::new();
        let mut i: usize = 0;
        proof {
            reveal(Seq::filter);
            assert(fs.take(0) =~= Seq::<FileRowV>::empty());
            assert(file_rows_view(kept@) =~= fs.take(0).filter(
                file_not_id(identifier@),
            ));
        }
        while i < self.files.len()
            invariant
                0 <= i <= self.files.len(),
                fs == self@.files,
                file_rows_view(kept@) == fs.take(i as int).filter(
                    file_not_id(identifier@),
                ),
            decreases self.files.len() - i,
        {
            let ghost keep = file_not_id(identifier@);
            proof {
                assert(fs.take(i as int + 1) =~= fs.take(i as int) + seq![fs[i as int]]);
                Seq::filter_distributes_over_add(fs.take(i as int), seq![fs[i as int]], keep);
                lemma_filter_singleton(fs[i as int], keep);
            }
            let row = &self.files[i];
            proof {
                assert(fs[i as int] == row@);
            }
            if !str_eq(row.identifier.as_str(), identifier) {
                kept.push(row.duplicate());
            }
            proof {
                assert(file_rows_view(kept@) =~= fs.take(i as int + 1).filter(keep));
            }
            i += 1;
        }
        proof {
            assert(fs.take(fs.len() as int) =~= fs);
        }
        self.files = kept;
        proof {
            let keep = file_not_id(identifier@);
            assert(self@.shares =~= old(self)@.shares);
            let rel = |a: FileRowV, b: FileRowV| a.identifier != b.identifier;
            assert forall|i: int, j: int| 0 <= i < j < fs.len() implies #[trigger] rel(
                fs[i],
                fs[j],
            ) by {}
            lemma_filter_keeps_pairwise(fs, keep, rel);
            assert forall|i: int, j: int|
                0 <= i < j < self@.files.len() implies (#[trigger] self@.files[i]).identifier != (
                #[trigger] self@.files[j]).identifier by {
                assert(rel(fs.filter(keep)[i], fs.filter(keep)[j]));
            }
        }
    }

    /// Every grant row recorded for this identifier, active or revoked.
    pub fn shares_for(&self, identifier: &str) -> (r: Vec<ShareRow>)
        ensures
            share_rows_view(r@) == self@.shares.filter(share_of(identifier@)),
    {
        let ghost ss = self@.shares;
        let mut r: Vec<ShareRow> = Vec::new();
        let mut i: usize = 0;
        proof {
            reveal(Seq::filter);
            assert(ss.take(0) =~= Seq::<ShareRowV>::empty());
            assert(share_rows_view(r@) =~= ss.take(0).filter(share_of(identifier@)));
        }
        while i < self.shares.len()
            invariant
                0 <= i <= self.shares.len(),
                ss == self@.shares,
                share_rows_view(r@) == ss.take(i as int).filter(
                    share_of(identifier@),
                ),
            decreases self.shares.len() - i,
        {
            let ghost sel = share_of(identifier@);
            proof {
                assert(ss.take(i as int + 1) =~= ss.take(i as int) + seq![ss[i as int]]);
                Seq::filter_distributes_over_add(ss.take(i as int), seq![ss[i as int]], sel);
                lemma_filter_singleton(ss[i as int], sel);
            }
            let row = &self.shares[i];
            proof {
                assert(ss[i as int] == row@);
            }
            if str_eq(row.identifier.as_str(), identifier) {
                r.push(row.duplicate());
            }
            proof {
                assert(share_rows_view(r@) =~= ss.take(i as int + 1).filter(sel));
            }
            i += 1;
        }
        proof {
            assert(ss.take(ss.len() as int) =~= ss);
        }
        r
    }
}

} // verus!
