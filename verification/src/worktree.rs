//! Mirror of a shared project's file tree. Remote diffs carry a base version
//! and apply atomically: the snapshot version increases by exactly one per
//! applied diff, a diff whose base version does not match is rejected
//! unchanged, and a malformed diff is rejected unchanged. Locally dirty paths
//! survive a remote diff as a re-broadcast list: the local change is written
//! out again afterwards (last writer wins for tree structure).

use vstd::prelude::*;

use crate::protocol::DiffError;

verus! {

/// What kind of tree entry a path names.
#[derive(Clone, Copy, PartialEq, Eq, Structural, Debug)]
pub enum EntryKind {
    File,
    Directory,
    Symlink,
}

/// One file-tree entry: path, kind, content fingerprint and modification
/// time.
pub struct FileEntry {
    pub path: Vec<u8>,
    pub kind: EntryKind,
    pub fingerprint: u64,
    pub mtime: u64,
}

/// One tree-structure operation of a diff.
pub enum DiffOp {
    Insert { entry: FileEntry },
    Remove { path: Vec<u8> },
    Update { entry: FileEntry },
}

/// A versioned, atomic set of tree-structure changes: applies only to a
/// snapshot whose version equals `base_version`.
pub struct Diff {
    pub base_version: u64,
    pub ops: Vec<DiffOp>,
}

/// The path an operation is about.
pub open spec fn op_path(op: DiffOp) -> Seq<u8> {
    match op {
        DiffOp::Insert { entry } => entry.path@,
        DiffOp::Remove { path } => path@,
        DiffOp::Update { entry } => entry.path@,
    }
}

/// Does some entry of the snapshot bear this path?
pub open spec fn has_path(s: Seq<FileEntry>, p: Seq<u8>) -> bool {
    exists|i: int| 0 <= i < s.len() && s[i].path@ == p
}

/// The first position of a path in the dirty list.
pub open spec fn first_dirty_index(d: Seq<Seq<u8>>, p: Seq<u8>) -> int {
    choose|i: int| 0 <= i < d.len() && d[i] == p && (forall|k: int| 0 <= k < i ==> d[k] != p)
}

/// The first position bearing this path.
pub open spec fn first_path_index(s: Seq<FileEntry>, p: Seq<u8>) -> int {
    choose|i: int|
        0 <= i < s.len() && s[i].path@ == p && (forall|k: int| 0 <= k < i ==> s[k].path@ != p)
}

/// No two operations of one diff touch the same path.
pub open spec fn ops_distinct(ops: Seq<DiffOp>) -> bool {
    forall|i: int, j: int| 0 <= i < j < ops.len() ==> op_path(ops[i]) != op_path(ops[j])
}

/// One operation fits the snapshot it is applied to: an insert brings a new
/// path, a removal or update names an existing one.
pub open spec fn op_applicable(s: Seq<FileEntry>, op: DiffOp) -> bool {
    match op {
        DiffOp::Insert { entry } => !has_path(s, entry.path@),
        DiffOp::Remove { path } => has_path(s, path@),
        DiffOp::Update { entry } => has_path(s, entry.path@),
    }
}

/// A diff is well-formed for a snapshot: its operations touch pairwise
/// distinct paths and each fits the snapshot.
pub open spec fn diff_valid(s: Seq<FileEntry>, ops: Seq<DiffOp>) -> bool {
    ops_distinct(ops) && (forall|i: int| 0 <= i < ops.len() ==> op_applicable(
        s,
        #[trigger] ops[i],
    ))
}

/// The effect of one operation: insert appends; remove drops the first entry
/// bearing the path; update replaces it in place. On a valid diff the
/// fallback identity branches never apply.
pub open spec fn apply_op(s: Seq<FileEntry>, op: DiffOp) -> Seq<FileEntry> {
    match op {
        DiffOp::Insert { entry } => s.push(entry),
        DiffOp::Remove { path } => if has_path(s, path@) {
            s.remove(first_path_index(s, path@))
        } else {
            s
        },
        DiffOp::Update { entry } => if has_path(s, entry.path@) {
            s.update(first_path_index(s, entry.path@), entry)
        } else {
            s
        },
    }
}

/// The operations of a diff applied in order.
pub open spec fn apply_ops(s: Seq<FileEntry>, ops: Seq<DiffOp>) -> Seq<FileEntry>
    decreases ops.len(),
{
    if ops.len() == 0 {
        s
    } else {
        apply_ops(apply_op(s, ops[0]), ops.skip(1))
    }
}

/// Mathematical model of one worktree mirror.
#[verifier::ext_equal]
pub struct WorktreeView {
    pub project_id: u64,
    pub version: u64,
    pub entries: Seq<FileEntry>,
    pub dirty: Seq<Seq<u8>>,
}

/// Is this path among the locally dirty ones a diff touches?
pub open spec fn ops_touch(ops: Seq<DiffOp>, p: Seq<u8>) -> bool {
    exists|i: int| 0 <= i < ops.len() && op_path(#[trigger] ops[i]) == p
}

/// The dirty paths a diff does not touch: they stay dirty.
pub open spec fn dirty_kept(dirty: Seq<Seq<u8>>, ops: Seq<DiffOp>) -> Seq<Seq<u8>>
    decreases dirty.len(),
{
    if dirty.len() == 0 {
        Seq::empty()
    } else if ops_touch(ops, dirty.last()) {
        dirty_kept(dirty.drop_last(), ops)
    } else {
        dirty_kept(dirty.drop_last(), ops).push(dirty.last())
    }
}

/// The dirty paths a diff touches: the local change is re-broadcast
/// afterwards, so the last writer wins.
pub open spec fn dirty_rebroadcast(dirty: Seq<Seq<u8>>, ops: Seq<DiffOp>) -> Seq<Seq<u8>>
    decreases dirty.len(),
{
    if dirty.len() == 0 {
        Seq::empty()
    } else if ops_touch(ops, dirty.last()) {
        dirty_rebroadcast(dirty.drop_last(), ops).push(dirty.last())
    } else {
        dirty_rebroadcast(dirty.drop_last(), ops)
    }
}

/// Applying one remote diff: rejected unchanged with `VersionMismatch` when
/// its base version is not the current version; rejected unchanged with
/// `Malformed` when its operations do not fit; otherwise applied atomically,
/// the version increasing by exactly one.
pub open spec fn apply_step(w: WorktreeView, base: u64, ops: Seq<DiffOp>) -> (
    WorktreeView,
    Result<(), DiffError>,
) {
    if base != w.version {
        (w, Err(DiffError::VersionMismatch))
    } else if !diff_valid(w.entries, ops) {
        (w, Err(DiffError::Malformed))
    } else {
        (
            WorktreeView {
                project_id: w.project_id,
                version: (w.version + 1) as u64,
                entries: apply_ops(w.entries, ops),
                dirty: dirty_kept(w.dirty, ops),
            },
            Ok(()),
        )
    }
}

/// Recording one local filesystem change: the entry replaces the first one
/// bearing its path (or is appended), its path becomes dirty, and the remote
/// version is untouched.
pub open spec fn local_change_step(w: WorktreeView, entry: FileEntry) -> WorktreeView {
    WorktreeView {
        project_id: w.project_id,
        version: w.version,
        entries: if has_path(w.entries, entry.path@) {
            w.entries.update(first_path_index(w.entries, entry.path@), entry)
        } else {
            w.entries.push(entry)
        },
        dirty: if w.dirty.contains(entry.path@) {
            w.dirty
        } else {
            w.dirty.push(entry.path@)
        },
    }
}

/// One worktree synchronizer: the local mirror of a shared project's tree.
pub struct Worktree {
    project_id: u64,
    version: u64,
    entries: Vec<FileEntry>,
    dirty: Vec<Vec<u8>>,
}

impl View for Worktree {
    type V = WorktreeView;

    closed spec fn view(&self) -> WorktreeView {
        WorktreeView {
            project_id: self.project_id,
            version: self.version,
            entries: self.entries@,
            dirty: self.dirty@.map_values(|p: Vec<u8>| p@),
        }
    }
}

/// Bytewise equality of two paths.
fn path_eq(a: &Vec<u8>, b: &Vec<u8>) -> (r: bool)
    ensures
        r == (a@ == b@),
{
    if a.len() != b.len() {
        proof {
            assert(a@ != b@);
        }
        return false;
    }
    let mut i: usize = 0;
    while i < a.len()
        invariant
            i <= a.len(),
            a.len() == b.len(),
            forall|k: int| 0 <= k < i ==> a@[k] == b@[k],
        decreases a.len() - i,
    {
        if a[i] != b[i] {
            proof {
                assert(a@[i as int] != b@[i as int]);
            }
            return false;
        }
        i = i + 1;
    }
    proof {
        assert(a@ =~= b@);
    }
    true
}

/// A bytewise copy of a path.
fn clone_path(p: &Vec<u8>) -> (r: Vec<u8>)
    ensures
        r@ == p@,
{
    let mut r: Vec<u8> = Vec::new();
    let mut i: usize = 0;
    while i < p.len()
        invariant
            i <= p.len(),
            r@ == p@.take(i as int),
        decreases p.len() - i,
    {
        r.push(p[i]);
        proof {
            assert(p@.take(i + 1) =~= p@.take(i as int).push(p@[i as int]));
        }
        i = i + 1;
    }
    proof {
        assert(p@.take(p@.len() as int) =~= p@);
    }
    r
}

/// The borrowed path of an operation.
fn op_path_ref(op: &DiffOp) -> (r: &Vec<u8>)
    ensures
        r@ == op_path(*op),
{
    match op {
        DiffOp::Insert { entry } => &entry.path,
        DiffOp::Remove { path } => path,
        DiffOp::Update { entry } => &entry.path,
    }
}

/// The first entry bearing a path, if any.
fn find_entry(entries: &Vec<FileEntry>, path: &Vec<u8>) -> (r: Option<usize>)
    ensures
        match r {
            Some(j) => j < entries@.len() && entries@[j as int].path@ == path@ && has_path(
                entries@,
                path@,
            ) && j == first_path_index(entries@, path@),
            None => !has_path(entries@, path@),
        },
{
    let mut i: usize = 0;
    while i < entries.len()
        invariant
            i <= entries.len(),
            forall|k: int| 0 <= k < i ==> (#[trigger] entries@[k]).path@ != path@,
        decreases entries.len() - i,
    {
        if path_eq(&entries[i].path, path) {
            proof {
                let s = entries@;
                let p = path@;
                assert(s[i as int].path@ == p);
                let j = first_path_index(s, p);
                assert(0 <= j < s.len() && s[j].path@ == p && (forall|k: int|
                    0 <= k < j ==> s[k].path@ != p)) by {
                    assert(0 <= i < s.len() && s[i as int].path@ == p && (forall|k: int|
                        0 <= k < i ==> s[k].path@ != p));
                }
                assert(j == i) by {
                    if j < i {
                        assert(s[j].path@ != p);
                    } else if j > i {
                        assert(s[i as int].path@ != p);
                    }
                }
            }
            return Some(i);
        }
        i = i + 1;
    }
    proof {
        if has_path(entries@, path@) {
            let j = choose|j: int| 0 <= j < entries@.len() && entries@[j].path@ == path@;
            assert(entries@[j].path@ != path@);
        }
    }
    None
}

/// Does this diff fit this snapshot: operations on pairwise distinct paths,
/// each applicable?
#[verifier::loop_isolation(false)]
fn check_diff(entries: &Vec<FileEntry>, ops: &Vec<DiffOp>) -> (r: bool)
    ensures
        r == diff_valid(entries@, ops@),
{
    let mut i: usize = 0;
    while i < ops.len()
        invariant
            i <= ops.len(),
            forall|a: int, b: int|
                0 <= a < b < ops@.len() && a < i ==> op_path(ops@[a]) != op_path(ops@[b]),
            forall|a: int| 0 <= a < i ==> op_applicable(entries@, #[trigger] ops@[a]),
        decreases ops.len() - i,
    {
        let op = &ops[i];
        let p = op_path_ref(op);
        let applicable: bool = match op {
            DiffOp::Insert { entry } => find_entry(entries, &entry.path).is_none(),
            DiffOp::Remove { path } => find_entry(entries, path).is_some(),
            DiffOp::Update { entry } => find_entry(entries, &entry.path).is_some(),
        };
        if !applicable {
            proof {
                assert(!op_applicable(entries@, ops@[i as int]));
            }
            return false;
        }
        let mut j: usize = i + 1;
        while j < ops.len()
            invariant
                i < j <= ops.len(),
                forall|b: int| i < b < j ==> op_path(ops@[i as int]) != op_path(ops@[b]),
                p@ == op_path(ops@[i as int]),
            decreases ops.len() - j,
        {
            if path_eq(p, op_path_ref(&ops[j])) {
                proof {
                    assert(op_path(ops@[i as int]) == op_path(ops@[j as int]));
                    assert(!ops_distinct(ops@));
                }
                return false;
            }
            j = j + 1;
        }
        i = i + 1;
    }
    proof {
        assert(diff_valid(entries@, ops@));
    }
    true
}

/// Split the dirty paths into those the diff leaves dirty and those it
/// touches, which are re-broadcast.
#[verifier::loop_isolation(false)]
fn split_dirty(dirty: &Vec<Vec<u8>>, ops: &Vec<DiffOp>) -> (r: (Vec<Vec<u8>>, Vec<Vec<u8>>))
    ensures
        r.0@.map_values(|p: Vec<u8>| p@) == dirty_kept(
            dirty@.map_values(|p: Vec<u8>| p@),
            ops@,
        ),
        r.1@.map_values(|p: Vec<u8>| p@) == dirty_rebroadcast(
            dirty@.map_values(|p: Vec<u8>| p@),
            ops@,
        ),
{
    let ghost dv = dirty@.map_values(|p: Vec<u8>| p@);
    let mut kept: Vec<Vec<u8>> = Vec::new();
    let mut rebroadcast: Vec<Vec<u8>> = Vec::new();
    let mut d: usize = 0;
    while d < dirty.len()
        invariant
            d <= dirty.len(),
            kept@.map_values(|p: Vec<u8>| p@) == dirty_kept(dv.take(d as int), ops@),
            rebroadcast@.map_values(|p: Vec<u8>| p@) == dirty_rebroadcast(
                dv.take(d as int),
                ops@,
            ),
        decreases dirty.len() - d,
    {
        let path = &dirty[d];
        let mut touched: bool = false;
        let mut k: usize = 0;
        while k < ops.len() && !touched
            invariant
                k <= ops.len(),
                path@ == dv[d as int],
                !touched ==> forall|b: int| 0 <= b < k ==> op_path(ops@[b]) != path@,
                touched ==> ops_touch(ops@, path@),
            decreases ops.len() - k + (if touched { 0int } else { 1int }),
        {
            if path_eq(op_path_ref(&ops[k]), path) {
                touched = true;
                proof {
                    assert(op_path(ops@[k as int]) == path@);
                }
            } else {
                k = k + 1;
            }
        }
        proof {
            if !touched && ops_touch(ops@, path@) {
                let b = choose|b: int| 0 <= b < ops@.len() && op_path(ops@[b]) == path@;
                assert(op_path(ops@[b]) != path@);
            }
            assert(touched == ops_touch(ops@, dv[d as int]));
            assert(dv.take(d + 1).drop_last() =~= dv.take(d as int));
            assert(dv.take(d + 1).last() == dv[d as int]);
        }
        let copied = clone_path(path);
        if touched {
            rebroadcast.push(copied);
            proof {
                assert(rebroadcast@.map_values(|p: Vec<u8>| p@) =~= dirty_rebroadcast(
                    dv.take(d + 1),
                    ops@,
                ));
                assert(kept@.map_values(|p: Vec<u8>| p@) =~= dirty_kept(dv.take(d + 1), ops@));
            }
        } else {
            kept.push(copied);
            proof {
                assert(kept@.map_values(|p: Vec<u8>| p@) =~= dirty_kept(dv.take(d + 1), ops@));
                assert(rebroadcast@.map_values(|p: Vec<u8>| p@) =~= dirty_rebroadcast(
                    dv.take(d + 1),
                    ops@,
                ));
            }
        }
        d = d + 1;
    }
    proof {
        assert(dv.take(dv.len() as int) =~= dv);
    }
    (kept, rebroadcast)
}

/// Apply one operation in place.
#[verifier::loop_isolation(false)]
#[verifier::rlimit(100)]
fn apply_one(entries: &mut Vec<FileEntry>, op: DiffOp)
    ensures
        final(entries)@ == apply_op(old(entries)@, op),
{
    let ghost pre = entries@;
    match op {
        DiffOp::Insert { entry } => {
            entries.push(entry);
            proof {
                assert(entries@ =~= apply_op(pre, (DiffOp::Insert { entry })));
            }
        },
        DiffOp::Remove { path } => {
            match find_entry(entries, &path) {
                Some(j) => {
                    entries.remove(j);
                    proof {
                        assert(entries@ =~= apply_op(pre, (DiffOp::Remove { path })));
                    }
                },
                None => {
                    proof {
                        assert(entries@ =~= apply_op(pre, (DiffOp::Remove { path })));
                    }
                },
            }
        },
        DiffOp::Update { entry } => {
            match find_entry(entries, &entry.path) {
                Some(j) => {
                    let ghost jj = first_path_index(pre, entry.path@);
                    entries.remove(j);
                    entries.insert(j, entry);
                    proof {
                        assert(entries@ =~= pre.update(jj, entry));
                        assert(entries@ =~= apply_op(pre, (DiffOp::Update { entry })));
                    }
                },
                None => {
                    proof {
                        assert(entries@ =~= apply_op(pre, (DiffOp::Update { entry })));
                    }
                },
            }
        },
    }
}

/// Apply every operation, in order.
#[verifier::loop_isolation(false)]
fn apply_all(entries: &mut Vec<FileEntry>, ops: Vec<DiffOp>)
    ensures
        final(entries)@ == apply_ops(old(entries)@, ops@),
{
    let ghost e0 = old(entries)@;
    let ghost ops0 = ops@;
    let mut ops = ops;
    while ops.len() > 0
        invariant
            apply_ops(entries@, ops@) == apply_ops(e0, ops0),
        decreases ops.len(),
    {
        let ghost entries_pre = entries@;
        let ghost rem_pre = ops@;
        let op = ops.remove(0);
        proof {
            assert(ops@ =~= rem_pre.skip(1));
            assert(apply_ops(entries_pre, rem_pre) == apply_ops(
                apply_op(entries_pre, rem_pre[0]),
                rem_pre.skip(1),
            ));
        }
        apply_one(entries, op);
    }
    proof {
        assert(apply_ops(entries@, ops@) == entries@);
    }
}

impl Worktree {
    /// An empty mirror of a project at version 0.
    pub fn new(project_id: u64) -> (w: Self)
        ensures
            w@.project_id == project_id,
            w@.version == 0,
            w@.entries == Seq::<FileEntry>::empty(),
            w@.dirty == Seq::<Seq<u8>>::empty(),
    {
        let w = Worktree { project_id, version: 0, entries: Vec::new(), dirty: Vec::new() };
        proof {
            assert(w@.entries =~= Seq::<FileEntry>::empty());
            assert(w@.dirty =~= Seq::<Seq<u8>>::empty());
        }
        w
    }

    /// The project this mirror belongs to.
    pub fn project_id(&self) -> (r: u64)
        ensures
            r == self@.project_id,
    {
        self.project_id
    }

    /// The snapshot's current version.
    pub fn version(&self) -> (r: u64)
        ensures
            r == self@.version,
    {
        self.version
    }

    /// How many entries the snapshot holds.
    pub fn entry_count(&self) -> (r: usize)
        ensures
            r == self@.entries.len(),
    {
        self.entries.len()
    }

    /// The entry at one position of the snapshot.
    pub fn entry_at(&self, i: usize) -> (r: &FileEntry)
        requires
            i < self@.entries.len(),
        ensures
            *r == self@.entries[i as int],
    {
        &self.entries[i]
    }

    /// The first entry bearing this path, if any.
    pub fn lookup(&self, path: &Vec<u8>) -> (r: Option<&FileEntry>)
        ensures
            match r {
                Some(e) => has_path(self@.entries, path@) && *e == self@.entries[first_path_index(
                    self@.entries,
                    path@,
                )],
                None => !has_path(self@.entries, path@),
            },
    {
        match find_entry(&self.entries, path) {
            Some(j) => Some(&self.entries[j]),
            None => None,
        }
    }

    /// Is this path locally dirty: changed here and not yet acknowledged?
    pub fn is_dirty(&self, path: &Vec<u8>) -> (r: bool)
        ensures
            r == self@.dirty.contains(path@),
    {
        let mut i: usize = 0;
        while i < self.dirty.len()
            invariant
                i <= self.dirty.len(),
                forall|k: int| 0 <= k < i ==> self@.dirty[k] != path@,
        decreases self.dirty.len() - i,
        {
            if path_eq(&self.dirty[i], path) {
                proof {
                    assert(self@.dirty[i as int] == path@);
                }
                return true;
            }
            i = i + 1;
        }
        proof {
            if self@.dirty.contains(path@) {
                let j = choose|j: int| 0 <= j < self@.dirty.len() && self@.dirty[j] == path@;
                assert(self@.dirty[j] != path@);
            }
        }
        false
    }

    /// Record a local filesystem change: the entry replaces the first one
    /// bearing its path, or is appended, and its path becomes dirty until
    /// acknowledged. The remote version is untouched: only remote diffs
    /// advance it.
    #[verifier::loop_isolation(false)]
    #[verifier::rlimit(100)]
    pub fn record_local_change(&mut self, entry: FileEntry) -> (r: bool)
        ensures
            final(self)@ == local_change_step(old(self)@, entry),
            r == has_path(old(self)@.entries, entry.path@),
    {
        let already_dirty = self.is_dirty(&entry.path);
        if !already_dirty {
            let p = clone_path(&entry.path);
            self.dirty.push(p);
            proof {
                assert(self@.dirty =~= old(self)@.dirty.push(entry.path@));
            }
        }
        let found = find_entry(&self.entries, &entry.path);
        match found {
            Some(j) => {
                let ghost s = old(self)@.entries;
                let ghost jj = first_path_index(s, entry.path@);
                self.entries.remove(j);
                self.entries.insert(j, entry);
                proof {
                    assert(self@.entries =~= s.update(jj, entry));
                    assert(self@ =~= local_change_step(old(self)@, entry));
                }
                true
            },
            None => {
                self.entries.push(entry);
                proof {
                    assert(self@.entries =~= old(self)@.entries.push(entry));
                    assert(self@ =~= local_change_step(old(self)@, entry));
                }
                false
            },
        }
    }

    /// Clear one path's dirty mark: its change was written out.
    pub fn acknowledge_clean(&mut self, path: &Vec<u8>)
        ensures
            final(self)@.project_id == old(self)@.project_id,
            final(self)@.version == old(self)@.version,
            final(self)@.entries == old(self)@.entries,
            old(self)@.dirty.contains(path@) ==> final(self)@.dirty == old(self)@.dirty.remove(
                first_dirty_index(old(self)@.dirty, path@),
            ),
            !old(self)@.dirty.contains(path@) ==> final(self)@.dirty == old(self)@.dirty,
    {
        let mut i: usize = 0;
        while i < self.dirty.len()
            invariant
                i <= self.dirty.len(),
                forall|k: int| 0 <= k < i ==> self@.dirty[k] != path@,
                self == old(self),
            decreases self.dirty.len() - i,
        {
            if path_eq(&self.dirty[i], path) {
                proof {
                    let d = old(self)@.dirty;
                    assert(d[i as int] == path@);
                    let j = first_dirty_index(d, path@);
                    assert(0 <= j < d.len() && d[j] == path@ && (forall|k: int|
                        0 <= k < j ==> d[k] != path@)) by {
                        assert(0 <= i < d.len() && d[i as int] == path@ && (forall|k: int|
                            0 <= k < i ==> d[k] != path@));
                    }
                    assert(j == i) by {
                        if j < i {
                            assert(d[j] != path@);
                        } else if j > i {
                            assert(d[i as int] != path@);
                        }
                    }
                }
                self.dirty.remove(i);
                proof {
                    assert(final(self)@.dirty =~= old(self)@.dirty.remove(i as int));
                }
                return ;
            }
            i = i + 1;
        }
        proof {
            if old(self)@.dirty.contains(path@) {
                let j = choose|j: int|
                    0 <= j < old(self)@.dirty.len() && old(self)@.dirty[j] == path@;
                assert(old(self)@.dirty[j] != path@);
            }
            assert(final(self)@.dirty == old(self)@.dirty);
        }
    }

    /// Replace the whole snapshot with a freshly fetched one, as after a
    /// reconnection or an unrecoverable version mismatch. Dirty marks are
    /// dropped: local changes are re-detected against the fresh snapshot.
    pub fn reset_to(&mut self, version: u64, entries: Vec<FileEntry>)
        ensures
            final(self)@.project_id == old(self)@.project_id,
            final(self)@.version == version,
            final(self)@.entries == entries@,
            final(self)@.dirty == Seq::<Seq<u8>>::empty(),
    {
        self.version = version;
        self.entries = entries;
        self.dirty = Vec::new();
        proof {
            assert(final(self)@.dirty =~= Seq::<Seq<u8>>::empty());
        }
    }

    /// Apply one remote diff. On success the version increases by exactly
    /// one, the operations are applied in order, and the returned paths are
    /// the locally dirty ones the diff touched: their local change is
    /// re-broadcast afterwards. On any error the mirror is unchanged.
    pub fn apply_remote(&mut self, diff: Diff) -> (r: Result<Vec<Vec<u8>>, DiffError>)
        requires
            old(self)@.version < u64::MAX,
        ensures
            final(self)@ == apply_step(old(self)@, diff.base_version, diff.ops@).0,
            (match r {
                Ok(rebroadcast) => apply_step(old(self)@, diff.base_version, diff.ops@).1
                    == Ok::<(), DiffError>(()) && rebroadcast@.map_values(|p: Vec<u8>| p@)
                    == dirty_rebroadcast(old(self)@.dirty, diff.ops@),
                Err(e) => apply_step(old(self)@, diff.base_version, diff.ops@).1 == Err::<
                    (),
                    DiffError,
                >(e),
            }),
    {
        let ghost w0 = old(self)@;
        let ghost ops0 = diff.ops@;
        if diff.base_version != self.version {
            return Err(DiffError::VersionMismatch);
        }
        if !check_diff(&self.entries, &diff.ops) {
            return Err(DiffError::Malformed);
        }
        let (kept, rebroadcast) = split_dirty(&self.dirty, &diff.ops);
        self.dirty = kept;
        apply_all(&mut self.entries, diff.ops);
        self.version = self.version + 1;
        proof {
            assert(self@ =~= apply_step(w0, diff.base_version, ops0).0);
        }
        Ok(rebroadcast)
    }
}

/// No two entries of the snapshot bear the same path.
pub open spec fn paths_unique(s: Seq<FileEntry>) -> bool {
    forall|i: int, j: int| 0 <= i < j < s.len() ==> s[i].path@ != s[j].path@
}

/// With unique paths, the one entry bearing a present path is the first.
pub proof fn lemma_first_index_valid(s: Seq<FileEntry>, p: Seq<u8>)
    requires
        paths_unique(s),
        has_path(s, p),
    ensures
        0 <= first_path_index(s, p) < s.len(),
        s[first_path_index(s, p)].path@ == p,
{
    let w = choose|w: int| 0 <= w < s.len() && s[w].path@ == p;
    assert(exists|i: int|
        0 <= i < s.len() && s[i].path@ == p && (forall|k: int|
            0 <= k < i ==> s[k].path@ != p)) by {
        assert forall|k: int| 0 <= k < w implies s[k].path@ != p by {
            if s[k].path@ == p {
                assert(s[k].path@ != s[w].path@);
            }
        }
        assert(0 <= w < s.len() && s[w].path@ == p && (forall|k: int|
            0 <= k < w ==> s[k].path@ != p));
    }
}

/// An applicable insert makes its path present, touches no other path's
/// presence, and keeps paths unique.
#[verifier::rlimit(50)]
pub proof fn lemma_insert_effects(s: Seq<FileEntry>, entry: FileEntry)
    requires
        paths_unique(s),
        !has_path(s, entry.path@),
    ensures
        paths_unique(s.push(entry)),
        has_path(s.push(entry), entry.path@),
        forall|p: Seq<u8>|
            p != entry.path@ ==> has_path(s.push(entry), p) == has_path(s, p),
{
    let s1 = s.push(entry);
    assert(forall|k: int| 0 <= k < s.len() ==> s1[k] == s[k]);
    assert(s1[s.len() as int] == entry);
    assert(has_path(s1, entry.path@));
    assert forall|p: Seq<u8>| p != entry.path@ implies has_path(s1, p) == has_path(s, p) by {
        if has_path(s, p) {
            let k = choose|k: int| 0 <= k < s.len() && s[k].path@ == p;
            assert(s1[k].path@ == p);
        }
        if has_path(s1, p) {
            let k = choose|k: int| 0 <= k < s1.len() && s1[k].path@ == p;
            assert(k < s.len());
            assert(s[k].path@ == p);
        }
    }
    assert forall|i: int, j: int| 0 <= i < j < s1.len() implies s1[i].path@ != s1[j].path@ by {
        if j == s.len() {
            assert(s1[j] == entry);
            if s1[i].path@ == entry.path@ {
                assert(has_path(s, entry.path@));
            }
        }
    }
}

/// An applicable removal erases its path, touches no other path's presence,
/// and keeps paths unique.
#[verifier::rlimit(50)]
pub proof fn lemma_remove_effects(s: Seq<FileEntry>, path: Seq<u8>)
    requires
        paths_unique(s),
        has_path(s, path),
    ensures
        paths_unique(s.remove(first_path_index(s, path))),
        !has_path(s.remove(first_path_index(s, path)), path),
        forall|p: Seq<u8>|
            p != path ==> has_path(s.remove(first_path_index(s, path)), p) == has_path(s, p),
{
    lemma_first_index_valid(s, path);
    let j = first_path_index(s, path);
    let s1 = s.remove(j);
    assert(forall|k: int| 0 <= k < j ==> s1[k] == s[k]);
    assert(forall|k: int| j <= k < s1.len() ==> s1[k] == s[k + 1]);
    assert forall|p: Seq<u8>| p != path implies has_path(s1, p) == has_path(s, p) by {
        if has_path(s, p) {
            let k = choose|k: int| 0 <= k < s.len() && s[k].path@ == p;
            assert(k != j);
            if k < j {
                assert(s1[k].path@ == p);
            } else {
                assert(s1[k - 1].path@ == p);
            }
        }
        if has_path(s1, p) {
            let k = choose|k: int| 0 <= k < s1.len() && s1[k].path@ == p;
            if k < j {
                assert(s[k].path@ == p);
            } else {
                assert(s[k + 1].path@ == p);
            }
        }
    }
    assert(!has_path(s1, path)) by {
        if has_path(s1, path) {
            let k = choose|k: int| 0 <= k < s1.len() && s1[k].path@ == path;
            if k < j {
                assert(s[k].path@ != s[j].path@);
            } else {
                assert(s[j].path@ != s[k + 1].path@);
            }
        }
    }
    assert forall|i2: int, j2: int| 0 <= i2 < j2 < s1.len() implies s1[i2].path@
        != s1[j2].path@ by {
        let a = if i2 < j { i2 } else { i2 + 1 };
        let b = if j2 < j { j2 } else { j2 + 1 };
        assert(s1[i2] == s[a]);
        assert(s1[j2] == s[b]);
        assert(a < b);
    }
}

/// An applicable update keeps its path present, touches no other path's
/// presence, and keeps paths unique.
#[verifier::rlimit(50)]
pub proof fn lemma_update_effects(s: Seq<FileEntry>, entry: FileEntry)
    requires
        paths_unique(s),
        has_path(s, entry.path@),
    ensures
        paths_unique(s.update(first_path_index(s, entry.path@), entry)),
        has_path(s.update(first_path_index(s, entry.path@), entry), entry.path@),
        forall|p: Seq<u8>|
            p != entry.path@ ==> has_path(s.update(first_path_index(s, entry.path@), entry), p)
                == has_path(s, p),
{
    lemma_first_index_valid(s, entry.path@);
    let j = first_path_index(s, entry.path@);
    let s1 = s.update(j, entry);
    assert(forall|k: int| 0 <= k < s.len() && k != j ==> s1[k] == s[k]);
    assert(s1[j] == entry);
    assert(has_path(s1, entry.path@));
    assert forall|p: Seq<u8>| p != entry.path@ implies has_path(s1, p) == has_path(s, p) by {
        if has_path(s, p) {
            let k = choose|k: int| 0 <= k < s.len() && s[k].path@ == p;
            assert(k != j);
            assert(s1[k].path@ == p);
        }
        if has_path(s1, p) {
            let k = choose|k: int| 0 <= k < s1.len() && s1[k].path@ == p;
            assert(k != j);
            assert(s[k].path@ == p);
        }
    }
    assert forall|i2: int, j2: int| 0 <= i2 < j2 < s1.len() implies s1[i2].path@
        != s1[j2].path@ by {
        assert(s1[i2].path@ == s[i2].path@);
        assert(s1[j2].path@ == s[j2].path@);
    }
}

/// One applicable operation takes effect on presence: an insert's path
/// appears, a removed path disappears, an updated path stays present, and
/// every other path's presence is untouched. Unique paths stay unique.
pub proof fn lemma_apply_op_effects(s: Seq<FileEntry>, op: DiffOp)
    requires
        paths_unique(s),
        op_applicable(s, op),
    ensures
        paths_unique(apply_op(s, op)),
        forall|p: Seq<u8>| p != op_path(op) ==> has_path(apply_op(s, op), p) == has_path(s, p),
        match op {
            DiffOp::Insert { entry } => has_path(apply_op(s, op), entry.path@),
            DiffOp::Remove { path } => !has_path(apply_op(s, op), path@),
            DiffOp::Update { entry } => has_path(apply_op(s, op), entry.path@),
        },
{
    match op {
        DiffOp::Insert { entry } => {
            lemma_insert_effects(s, entry);
        },
        DiffOp::Remove { path } => {
            lemma_remove_effects(s, path@);
        },
        DiffOp::Update { entry } => {
            lemma_update_effects(s, entry);
        },
    }
}

/// Law: on a snapshot with unique paths, every operation of a valid diff
/// takes effect: a removed path is gone, an inserted or updated path is
/// present, and the presence of every path the diff does not touch is
/// unchanged. Paths stay unique.
pub proof fn lemma_valid_diff_takes_effect(s: Seq<FileEntry>, ops: Seq<DiffOp>)
    requires
        paths_unique(s),
        diff_valid(s, ops),
    ensures
        paths_unique(apply_ops(s, ops)),
        forall|k: int|
            0 <= k < ops.len() ==> match #[trigger] ops[k] {
                DiffOp::Insert { entry } => has_path(apply_ops(s, ops), entry.path@),
                DiffOp::Remove { path } => !has_path(apply_ops(s, ops), path@),
                DiffOp::Update { entry } => has_path(apply_ops(s, ops), entry.path@),
            },
        forall|p: Seq<u8>|
            !ops_touch(ops, p) ==> has_path(apply_ops(s, ops), p) == has_path(s, p),
    decreases ops.len(),
{
    if ops.len() > 0 {
        let op0 = ops[0];
        let s1 = apply_op(s, op0);
        let rest = ops.skip(1);
        assert(forall|k: int| 0 <= k < rest.len() ==> rest[k] == ops[k + 1]);
        assert(op_applicable(s, op0));
        lemma_apply_op_effects(s, op0);
        assert forall|k: int| 0 <= k < rest.len() implies op_applicable(
            s1,
            #[trigger] rest[k],
        ) by {
            assert(rest[k] == ops[k + 1]);
            assert(op_applicable(s, ops[k + 1]));
            assert(op_path(ops[0]) != op_path(ops[k + 1]));
            assert(has_path(s1, op_path(rest[k])) == has_path(s, op_path(rest[k])));
            match rest[k] {
                DiffOp::Insert { entry } => {
                    assert(op_path(rest[k]) == entry.path@);
                },
                DiffOp::Remove { path } => {
                    assert(op_path(rest[k]) == path@);
                },
                DiffOp::Update { entry } => {
                    assert(op_path(rest[k]) == entry.path@);
                },
            }
        }
        assert(diff_valid(s1, rest)) by {
            assert forall|a: int, b: int| 0 <= a < b < rest.len() implies op_path(rest[a])
                != op_path(rest[b]) by {
                assert(rest[a] == ops[a + 1]);
                assert(rest[b] == ops[b + 1]);
                assert(op_path(ops[a + 1]) != op_path(ops[b + 1]));
            }
        }
        lemma_valid_diff_takes_effect(s1, rest);
        assert(apply_ops(s, ops) == apply_ops(s1, rest));
        let v = apply_ops(s, ops);
        assert forall|p: Seq<u8>| !ops_touch(ops, p) implies has_path(v, p) == has_path(
            s,
            p,
        ) by {
            assert(op_path(ops[0]) != p) by {
                if op_path(ops[0]) == p {
                    assert(ops_touch(ops, p));
                }
            }
            assert(!ops_touch(rest, p)) by {
                if ops_touch(rest, p) {
                    let k = choose|k: int| 0 <= k < rest.len() && op_path(rest[k]) == p;
                    assert(op_path(ops[k + 1]) == p);
                    assert(ops_touch(ops, p));
                }
            }
        }
        assert forall|k: int| 0 <= k < ops.len() implies match #[trigger] ops[k] {
            DiffOp::Insert { entry } => has_path(v, entry.path@),
            DiffOp::Remove { path } => !has_path(v, path@),
            DiffOp::Update { entry } => has_path(v, entry.path@),
        } by {
            if k == 0 {
                assert(!ops_touch(rest, op_path(ops[0]))) by {
                    if ops_touch(rest, op_path(ops[0])) {
                        let m = choose|m: int|
                            0 <= m < rest.len() && op_path(rest[m]) == op_path(ops[0]);
                        assert(op_path(ops[0]) != op_path(ops[m + 1]));
                    }
                }
                assert(has_path(v, op_path(ops[0])) == has_path(s1, op_path(ops[0])));
                match ops[0] {
                    DiffOp::Insert { entry } => {
                        assert(op_path(ops[0]) == entry.path@);
                        assert(has_path(s1, entry.path@));
                    },
                    DiffOp::Remove { path } => {
                        assert(op_path(ops[0]) == path@);
                        assert(!has_path(s1, path@));
                    },
                    DiffOp::Update { entry } => {
                        assert(op_path(ops[0]) == entry.path@);
                        assert(has_path(s1, entry.path@));
                    },
                }
            } else {
                assert(ops[k] == rest[k - 1]);
            }
        }
    }
}

/// Law: two diffs whose base versions follow each other apply in order and
/// leave the snapshot exactly two versions ahead; the result is a function of
/// the snapshot and the diffs alone, whatever the arrival timing.
pub proof fn lemma_diffs_apply_in_version_order(
    w: WorktreeView,
    ops1: Seq<DiffOp>,
    ops2: Seq<DiffOp>,
)
    requires
        w.version + 2 <= u64::MAX,
        diff_valid(w.entries, ops1),
        diff_valid(apply_ops(w.entries, ops1), ops2),
    ensures
        apply_step(w, w.version, ops1).1 == Ok::<(), DiffError>(()),
        apply_step(apply_step(w, w.version, ops1).0, (w.version + 1) as u64, ops2).1 == Ok::<
            (),
            DiffError,
        >(()),
        apply_step(apply_step(w, w.version, ops1).0, (w.version + 1) as u64, ops2).0.version == w.version
            + 2,
        apply_step(apply_step(w, w.version, ops1).0, (w.version + 1) as u64, ops2).0.entries
            == apply_ops(apply_ops(w.entries, ops1), ops2),
{
}

/// Law: a diff whose base version does not match the current version is
/// rejected unchanged with `VersionMismatch`.
pub proof fn lemma_version_mismatch_rejected(w: WorktreeView, base: u64, ops: Seq<DiffOp>)
    requires
        base != w.version,
    ensures
        apply_step(w, base, ops).0 == w,
        apply_step(w, base, ops).1 == Err::<(), DiffError>(DiffError::VersionMismatch),
{
}

} // verus!
