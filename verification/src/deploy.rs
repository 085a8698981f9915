use crate::node::{
    all_files, child_path, diff_new_children, diff_old_children, find_child, find_index,
    flat_new_op, flat_old_op, lemma_child_path_injective, lemma_find_index, lemma_flat_new_pass,
    lemma_flat_old_pass, path_under, Operation, OperationKind, OpView, SourcedNodeView,
};
use crate::ModKey;
use vstd::prelude::*;

verus! {

// ---------------------------------------------------------------------------
// Execution: from operations to primitive filesystem steps
// ---------------------------------------------------------------------------

/// One primitive filesystem step of a deployment. Every path is the
/// slash-separated logical path relative to the working directory, the
/// backup directory, or a source root.
#[derive(Debug, Clone, PartialEq, Eq)]
pub enum FsAction {
    /// Create the directory, and any missing ancestors, at
    /// `working_dir/path`.
    EnsureWorkingDir { path: String },
    /// Remove the directory at `working_dir/path`.
    RemoveWorkingDir { path: String },
    /// Preserve the file at `working_dir/path` by hard-linking it to
    /// `backup_dir/path`, creating missing backup ancestors first.
    BackupFile { path: String },
    /// Remove the file at `working_dir/path`.
    RemoveWorkingFile { path: String },
    /// Hard-link `source_root/path` to `working_dir/path`, creating
    /// missing working ancestors first.
    LinkFromSource { source: ModKey, path: String },
    /// Hard-link `backup_dir/path` back to `working_dir/path` and delete
    /// the backup entry.
    RestoreBackup { path: String },
}

/// Mathematical abstraction of an `FsAction`.
pub enum ActionView {
    EnsureWorkingDir { path: Seq<char> },
    RemoveWorkingDir { path: Seq<char> },
    BackupFile { path: Seq<char> },
    RemoveWorkingFile { path: Seq<char> },
    LinkFromSource { source: ModKey, path: Seq<char> },
    RestoreBackup { path: Seq<char> },
}

pub open spec fn action_view(a: FsAction) -> ActionView {
    match a {
        FsAction::EnsureWorkingDir { path } => ActionView::EnsureWorkingDir { path: path@ },
        FsAction::RemoveWorkingDir { path } => ActionView::RemoveWorkingDir { path: path@ },
        FsAction::BackupFile { path } => ActionView::BackupFile { path: path@ },
        FsAction::RemoveWorkingFile { path } => ActionView::RemoveWorkingFile { path: path@ },
        FsAction::LinkFromSource { source, path } => ActionView::LinkFromSource {
            source,
            path: path@,
        },
        FsAction::RestoreBackup { path } => ActionView::RestoreBackup { path: path@ },
    }
}

pub open spec fn actions_view(s: Seq<FsAction>) -> Seq<ActionView> {
    s.map_values(|a: FsAction| action_view(a))
}

/// What the executor observed on disk just before performing one
/// operation at its path.
#[derive(Debug, Clone, Copy, PartialEq, Eq, Structural)]
pub struct DiskObservation {
    /// Whether some entry occupies `working_dir/path`.
    pub working_exists: bool,
    /// Whether a backup entry occupies `backup_dir/path`.
    pub backup_exists: bool,
    /// For a directory removal only: whether the directory is empty.
    pub dir_is_empty: bool,
}

/// The primitive steps for one operation, given what was observed:
/// a new file backs up a pre-existing, not yet preserved occupant before
/// replacing it; a removed file is replaced by its backup if one exists;
/// a re-sourced file never touches the backup; a directory is removed
/// only when empty.
pub open spec fn action_plan(
    path: Seq<char>,
    kind: OperationKind,
    obs: DiskObservation,
) -> Seq<ActionView> {
    match kind {
        OperationKind::CreateDir => seq![ActionView::EnsureWorkingDir { path }],
        OperationKind::RemoveDir => {
            if obs.dir_is_empty {
                seq![ActionView::RemoveWorkingDir { path }]
            } else {
                Seq::empty()
            }
        },
        OperationKind::CreateFile(source) => {
            (if obs.working_exists {
                (if !obs.backup_exists {
                    seq![ActionView::BackupFile { path }]
                } else {
                    Seq::empty()
                }) + seq![ActionView::RemoveWorkingFile { path }]
            } else {
                Seq::empty()
            }) + seq![ActionView::LinkFromSource { source, path }]
        },
        OperationKind::RemoveFile => seq![ActionView::RemoveWorkingFile { path }] + (
        if obs.backup_exists {
            seq![ActionView::RestoreBackup { path }]
        } else {
            Seq::empty()
        }),
        OperationKind::ChangeSource(source) => {
            (if obs.working_exists {
                seq![ActionView::RemoveWorkingFile { path }]
            } else {
                Seq::empty()
            }) + seq![ActionView::LinkFromSource { source, path }]
        },
    }
}

/// The ordered primitive steps that carry out one operation, given the
/// observations made at its path.
pub fn actions_for(op: &Operation, obs: DiskObservation) -> (r: Vec<FsAction>)
    ensures
        actions_view(r@) == action_plan(op.path@, op.kind, obs),
{
    let mut r: Vec<FsAction> = Vec::new();
    match op.kind {
        OperationKind::CreateDir => {
            r.push(FsAction::EnsureWorkingDir { path: op.path.clone() });
        },
        OperationKind::RemoveDir => {
            if obs.dir_is_empty {
                r.push(FsAction::RemoveWorkingDir { path: op.path.clone() });
            }
        },
        OperationKind::CreateFile(source) => {
            if obs.working_exists {
                if !obs.backup_exists {
                    r.push(FsAction::BackupFile { path: op.path.clone() });
                }
                r.push(FsAction::RemoveWorkingFile { path: op.path.clone() });
            }
            r.push(FsAction::LinkFromSource { source, path: op.path.clone() });
        },
        OperationKind::RemoveFile => {
            r.push(FsAction::RemoveWorkingFile { path: op.path.clone() });
            if obs.backup_exists {
                r.push(FsAction::RestoreBackup { path: op.path.clone() });
            }
        },
        OperationKind::ChangeSource(source) => {
            if obs.working_exists {
                r.push(FsAction::RemoveWorkingFile { path: op.path.clone() });
            }
            r.push(FsAction::LinkFromSource { source, path: op.path.clone() });
        },
    }
    proof {
        assert(actions_view(r@) =~= action_plan(op.path@, op.kind, obs));
    }
    r
}

// ---------------------------------------------------------------------------
// The abstract disk: what the primitive steps do to it
// ---------------------------------------------------------------------------

/// The identity of a file's content: the directory entry its hard link
/// was created from.
pub enum FileId {
    /// A pre-overlay file that originally sat at this working path.
    Original { path: Seq<char> },
    /// A hard link into the tree of a source.
    FromSource { source: ModKey, path: Seq<char> },
}

pub enum DiskEntry {
    Dir,
    File { id: FileId },
}

/// An abstract disk: which entry occupies each working path, and which
/// backup entries exist. The backup directory mirrors working paths.
pub struct DiskView {
    pub working: Map<Seq<char>, DiskEntry>,
    pub backup: Map<Seq<char>, FileId>,
}

impl DiskView {
    /// The effect of one primitive step.
    pub open spec fn apply_action(self, a: ActionView) -> DiskView {
        match a {
            ActionView::EnsureWorkingDir { path } => DiskView {
                working: self.working.insert(path, DiskEntry::Dir),
                ..self
            },
            ActionView::RemoveWorkingDir { path } => DiskView {
                working: self.working.remove(path),
                ..self
            },
            ActionView::BackupFile { path } => {
                if self.working.contains_key(path) && self.working[path] is File {
                    DiskView {
                        backup: self.backup.insert(path, self.working[path]->File_id),
                        ..self
                    }
                } else {
                    self
                }
            },
            ActionView::RemoveWorkingFile { path } => DiskView {
                working: self.working.remove(path),
                ..self
            },
            ActionView::LinkFromSource { source, path } => DiskView {
                working: self.working.insert(
                    path,
                    DiskEntry::File { id: FileId::FromSource { source, path } },
                ),
                ..self
            },
            ActionView::RestoreBackup { path } => {
                if self.backup.contains_key(path) {
                    DiskView {
                        working: self.working.insert(
                            path,
                            DiskEntry::File { id: self.backup[path] },
                        ),
                        backup: self.backup.remove(path),
                    }
                } else {
                    self
                }
            },
        }
    }

    /// The effect of a list of primitive steps, in order.
    pub open spec fn apply_actions(self, s: Seq<ActionView>) -> DiskView
        decreases s.len(),
    {
        if s.len() == 0 {
            self
        } else {
            self.apply_action(s[0]).apply_actions(s.skip(1))
        }
    }

    /// What an executor faithfully reading this disk observes at a path.
    pub open spec fn observe(self, path: Seq<char>) -> DiskObservation {
        DiskObservation {
            working_exists: self.working.contains_key(path),
            backup_exists: self.backup.contains_key(path),
            dir_is_empty: forall|q: Seq<char>|
                #[trigger] self.working.contains_key(q) ==> !path_under(q, path),
        }
    }

    /// The effect of one operation, observed and then carried out.
    pub open spec fn apply_op(self, path: Seq<char>, kind: OperationKind) -> DiskView {
        self.apply_actions(action_plan(path, kind, self.observe(path)))
    }
}

/// The path an action works at.
pub open spec fn action_path(a: ActionView) -> Seq<char> {
    match a {
        ActionView::EnsureWorkingDir { path } => path,
        ActionView::RemoveWorkingDir { path } => path,
        ActionView::BackupFile { path } => path,
        ActionView::RemoveWorkingFile { path } => path,
        ActionView::LinkFromSource { path, .. } => path,
        ActionView::RestoreBackup { path } => path,
    }
}

impl DiskView {
    /// The effect of a whole operation list, in order.
    pub open spec fn apply_op_list(self, ops: Seq<OpView>) -> DiskView
        decreases ops.len(),
    {
        if ops.len() == 0 {
            self
        } else {
            self.apply_op(ops[0].path, ops[0].kind).apply_op_list(ops.skip(1))
        }
    }
}

/// Applying one operation list after another is applying their
/// concatenation: a deployment in two synchronizations walks through the
/// same disk states as the concatenated plan.
pub proof fn lemma_apply_op_list_concat(d: DiskView, a: Seq<OpView>, b: Seq<OpView>)
    ensures
        d.apply_op_list(a + b) == d.apply_op_list(a).apply_op_list(b),
    decreases a.len(),
{
    if a.len() == 0 {
        assert(a + b =~= b);
    } else {
        assert((a + b)[0] == a[0]);
        assert((a + b).skip(1) =~= a.skip(1) + b);
        lemma_apply_op_list_concat(d.apply_op(a[0].path, a[0].kind), a.skip(1), b);
    }
}

/// Primitive steps away from `q` leave the disk at `q` alone.
proof fn lemma_actions_frame(d: DiskView, s: Seq<ActionView>, q: Seq<char>)
    requires
        forall|i: int| 0 <= i < s.len() ==> action_path(#[trigger] s[i]) != q,
    ensures
        d.apply_actions(s).working.contains_key(q) == d.working.contains_key(q),
        d.working.contains_key(q) ==> d.apply_actions(s).working[q] == d.working[q],
        d.apply_actions(s).backup.contains_key(q) == d.backup.contains_key(q),
        d.backup.contains_key(q) ==> d.apply_actions(s).backup[q] == d.backup[q],
    decreases s.len(),
{
    if s.len() != 0 {
        assert forall|i: int| 0 <= i < s.skip(1).len() implies action_path(
            #[trigger] s.skip(1)[i],
        ) != q by {
            assert(s.skip(1)[i] == s[i + 1]);
        }
        lemma_actions_frame(d.apply_action(s[0]), s.skip(1), q);
    }
}

/// An operation only changes the disk at its own path: planning and
/// execution are path-local, so operations on unrelated paths cannot
/// interfere with one another.
pub proof fn lemma_op_frame(d: DiskView, path: Seq<char>, kind: OperationKind, q: Seq<char>)
    requires
        q != path,
    ensures
        d.apply_op(path, kind).working.contains_key(q) == d.working.contains_key(q),
        d.working.contains_key(q) ==> d.apply_op(path, kind).working[q] == d.working[q],
        d.apply_op(path, kind).backup.contains_key(q) == d.backup.contains_key(q),
        d.backup.contains_key(q) ==> d.apply_op(path, kind).backup[q] == d.backup[q],
{
    let obs = d.observe(path);
    let plan = action_plan(path, kind, obs);
    assert forall|i: int| 0 <= i < plan.len() implies action_path(#[trigger] plan[i]) != q by {
        match kind {
            OperationKind::CreateDir => {},
            OperationKind::RemoveDir => {},
            OperationKind::CreateFile(_) => {},
            OperationKind::RemoveFile => {},
            OperationKind::ChangeSource(_) => {},
        }
    }
    lemma_actions_frame(d, plan, q);
}

/// The disk's state at one path: the working entry and the backup entry.
pub open spec fn state_at(d: DiskView, q: Seq<char>) -> (Option<DiskEntry>, Option<FileId>) {
    (
        if d.working.contains_key(q) {
            Some(d.working[q])
        } else {
            None
        },
        if d.backup.contains_key(q) {
            Some(d.backup[q])
        } else {
            None
        },
    )
}

/// Operations elsewhere leave a path's state alone.
pub proof fn lemma_untouched_path(d: DiskView, ops: Seq<OpView>, q: Seq<char>)
    requires
        forall|a: int| 0 <= a < ops.len() ==> (#[trigger] ops[a]).path != q,
    ensures
        state_at(d.apply_op_list(ops), q) == state_at(d, q),
    decreases ops.len(),
{
    if ops.len() != 0 {
        lemma_op_frame(d, ops[0].path, ops[0].kind, q);
        assert forall|a: int| 0 <= a < ops.skip(1).len() implies (#[trigger] ops.skip(1)[a]).path
            != q by {
            assert(ops.skip(1)[a] == ops[a + 1]);
        }
        lemma_untouched_path(d.apply_op(ops[0].path, ops[0].kind), ops.skip(1), q);
    }
}

/// Steps that all work at one path act on that path's state alone: two
/// disks agreeing there end up agreeing there.
proof fn lemma_actions_local(d1: DiskView, d2: DiskView, s: Seq<ActionView>, q: Seq<char>)
    requires
        state_at(d1, q) == state_at(d2, q),
        forall|i: int| 0 <= i < s.len() ==> action_path(#[trigger] s[i]) == q,
    ensures
        state_at(d1.apply_actions(s), q) == state_at(d2.apply_actions(s), q),
    decreases s.len(),
{
    if s.len() != 0 {
        assert(state_at(d1.apply_action(s[0]), q) == state_at(d2.apply_action(s[0]), q));
        assert forall|i: int| 0 <= i < s.skip(1).len() implies action_path(#[trigger] s.skip(1)[i])
            == q by {
            assert(s.skip(1)[i] == s[i + 1]);
        }
        lemma_actions_local(d1.apply_action(s[0]), d2.apply_action(s[0]), s.skip(1), q);
    }
}

/// An operation that is not a directory removal plans and acts from its
/// own path's state alone.
proof fn lemma_local_effect(d1: DiskView, d2: DiskView, q: Seq<char>, kind: OperationKind)
    requires
        state_at(d1, q) == state_at(d2, q),
        !(kind is RemoveDir),
    ensures
        state_at(d1.apply_op(q, kind), q) == state_at(d2.apply_op(q, kind), q),
{
    let obs1 = d1.observe(q);
    let obs2 = d2.observe(q);
    assert(obs1.working_exists == obs2.working_exists);
    assert(obs1.backup_exists == obs2.backup_exists);
    assert(action_plan(q, kind, obs1) == action_plan(q, kind, obs2));
    let plan = action_plan(q, kind, obs1);
    assert forall|i: int| 0 <= i < plan.len() implies action_path(#[trigger] plan[i]) == q by {
        match kind {
            OperationKind::CreateDir => {},
            OperationKind::RemoveDir => {},
            OperationKind::CreateFile(_) => {},
            OperationKind::RemoveFile => {},
            OperationKind::ChangeSource(_) => {},
        }
    }
    lemma_actions_local(d1, d2, plan, q);
}

/// The mechanism behind deployment convergence: in an operation list that
/// touches each path at most once and removes no directories, the final
/// state of a path is exactly the effect of the one operation at it,
/// whatever the rest of the list does and in whatever order it stands.
pub proof fn lemma_unique_path_effect(d: DiskView, ops: Seq<OpView>, q: Seq<char>, i: int)
    requires
        forall|a: int| 0 <= a < ops.len() ==> !((#[trigger] ops[a]).kind is RemoveDir),
        forall|a: int, b: int| 0 <= a < b < ops.len() ==> ops[a].path != ops[b].path,
        0 <= i < ops.len(),
        ops[i].path == q,
    ensures
        state_at(d.apply_op_list(ops), q) == state_at(d.apply_op(q, ops[i].kind), q),
    decreases ops.len(),
{
    if i == 0 {
        assert forall|a: int| 0 <= a < ops.skip(1).len() implies (#[trigger] ops.skip(1)[a]).path
            != q by {
            assert(ops.skip(1)[a] == ops[a + 1]);
        }
        lemma_untouched_path(d.apply_op(q, ops[0].kind), ops.skip(1), q);
    } else {
        let d1 = d.apply_op(ops[0].path, ops[0].kind);
        lemma_op_frame(d, ops[0].path, ops[0].kind, q);
        assert forall|a: int, b: int|
            0 <= a < b < ops.skip(1).len() implies ops.skip(1)[a].path != ops.skip(1)[b].path by {
            assert(ops.skip(1)[a] == ops[a + 1]);
            assert(ops.skip(1)[b] == ops[b + 1]);
        }
        assert forall|a: int| 0 <= a < ops.skip(1).len() implies !((#[trigger] ops.skip(
            1,
        )[a]).kind is RemoveDir) by {
            assert(ops.skip(1)[a] == ops[a + 1]);
        }
        assert(ops.skip(1)[i - 1] == ops[i]);
        lemma_unique_path_effect(d1, ops.skip(1), q, i - 1);
        lemma_local_effect(d1, d, q, ops[i].kind);
    }
}

/// Backup round trip: a pre-existing working file that an overlay claims
/// and later releases again is restored exactly, and no backup entry
/// remains. Claiming the path links the new source's file in place after
/// preserving the occupant; releasing it removes the link, puts the
/// preserved file back, and consumes the backup.
pub proof fn lemma_backup_restore_round_trip(d: DiskView, p: Seq<char>, source: ModKey, id: FileId)
    requires
        d.working.contains_key(p),
        d.working[p] == (DiskEntry::File { id }),
        !d.backup.contains_key(p),
    ensures
        ({
            let d1 = d.apply_op(p, OperationKind::CreateFile(source));
            let d2 = d1.apply_op(p, OperationKind::RemoveFile);
            &&& d1.working.contains_key(p)
            &&& d1.working[p] == (DiskEntry::File {
                id: FileId::FromSource { source, path: p },
            })
            &&& d1.backup.contains_key(p) && d1.backup[p] == id
            &&& d2.working =~= d.working
            &&& d2.backup =~= d.backup
        }),
{
    reveal_with_fuel(DiskView::apply_actions, 5);
    let obs1 = d.observe(p);
    let plan1 = action_plan(p, OperationKind::CreateFile(source), obs1);
    assert(plan1 =~= seq![
        ActionView::BackupFile { path: p },
        ActionView::RemoveWorkingFile { path: p },
        ActionView::LinkFromSource { source, path: p },
    ]);
    let da = d.apply_action(ActionView::BackupFile { path: p });
    let db = da.apply_action(ActionView::RemoveWorkingFile { path: p });
    let d1 = db.apply_action(ActionView::LinkFromSource { source, path: p });
    assert(plan1.skip(1) =~= seq![
        ActionView::RemoveWorkingFile { path: p },
        ActionView::LinkFromSource { source, path: p },
    ]);
    assert(plan1.skip(1).skip(1) =~= seq![ActionView::LinkFromSource { source, path: p }]);
    assert(plan1.skip(1).skip(1).skip(1) =~= Seq::<ActionView>::empty());
    assert(d.apply_op(p, OperationKind::CreateFile(source)) == d1);
    let obs2 = d1.observe(p);
    let plan2 = action_plan(p, OperationKind::RemoveFile, obs2);
    assert(plan2 =~= seq![
        ActionView::RemoveWorkingFile { path: p },
        ActionView::RestoreBackup { path: p },
    ]);
    let dc = d1.apply_action(ActionView::RemoveWorkingFile { path: p });
    let d2 = dc.apply_action(ActionView::RestoreBackup { path: p });
    assert(plan2.skip(1) =~= seq![ActionView::RestoreBackup { path: p }]);
    assert(plan2.skip(1).skip(1) =~= Seq::<ActionView>::empty());
    assert(d1.apply_op(p, OperationKind::RemoveFile) == d2);
    assert(d2.working =~= d.working);
    assert(d2.backup =~= d.backup);
}

/// Re-sourcing a deployed file never touches the backup: the path was
/// already overlay-owned, so nothing is preserved or restored by it.
pub proof fn lemma_change_source_keeps_backup(d: DiskView, p: Seq<char>, source: ModKey)
    ensures
        d.apply_op(p, OperationKind::ChangeSource(source)).backup == d.backup,
        d.apply_op(p, OperationKind::ChangeSource(source)).working.contains_key(p),
        d.apply_op(p, OperationKind::ChangeSource(source)).working[p] == (DiskEntry::File {
            id: FileId::FromSource { source, path: p },
        }),
{
    reveal_with_fuel(DiskView::apply_actions, 4);
    let obs = d.observe(p);
    let plan = action_plan(p, OperationKind::ChangeSource(source), obs);
    if obs.working_exists {
        assert(plan =~= seq![
            ActionView::RemoveWorkingFile { path: p },
            ActionView::LinkFromSource { source, path: p },
        ]);
        assert(plan.skip(1) =~= seq![ActionView::LinkFromSource { source, path: p }]);
        assert(plan.skip(1).skip(1) =~= Seq::<ActionView>::empty());
    } else {
        assert(plan =~= seq![ActionView::LinkFromSource { source, path: p }]);
        assert(plan.skip(1) =~= Seq::<ActionView>::empty());
    }
}

// ---------------------------------------------------------------------------
// Convergence for flat trees
// ---------------------------------------------------------------------------

/// The working-directory contents of a flat deployed child list: one
/// hard-linked file per child, at its child path.
pub open spec fn files_on_disk(cs: Seq<SourcedNodeView>, path: Seq<char>) -> Map<
    Seq<char>,
    DiskEntry,
>
    decreases cs.len(),
{
    if cs.len() == 0 {
        Map::empty()
    } else {
        files_on_disk(cs.skip(1), path).insert(
            child_path(path, cs[0].name()),
            DiskEntry::File {
                id: FileId::FromSource {
                    source: cs[0]->File_source,
                    path: child_path(path, cs[0].name()),
                },
            },
        )
    }
}

/// What a flat deployment holds at each path.
pub proof fn lemma_files_on_disk(cs: Seq<SourcedNodeView>, path: Seq<char>)
    requires
        forall|a: int, b: int| 0 <= a < b < cs.len() ==> cs[a].name() != cs[b].name(),
    ensures
        forall|q: Seq<char>|
            #[trigger] files_on_disk(cs, path).contains_key(q) <==> exists|i: int|
                0 <= i < cs.len() && q == child_path(path, (#[trigger] cs[i]).name()),
        forall|i: int|
            0 <= i < cs.len() ==> files_on_disk(cs, path)[child_path(
                path,
                (#[trigger] cs[i]).name(),
            )] == (DiskEntry::File {
                id: FileId::FromSource {
                    source: cs[i]->File_source,
                    path: child_path(path, cs[i].name()),
                },
            }),
    decreases cs.len(),
{
    if cs.len() != 0 {
        assert forall|a: int, b: int|
            0 <= a < b < cs.skip(1).len() implies cs.skip(1)[a].name() != cs.skip(
            1,
        )[b].name() by {
            assert(cs.skip(1)[a] == cs[a + 1]);
            assert(cs.skip(1)[b] == cs[b + 1]);
        }
        lemma_files_on_disk(cs.skip(1), path);
        assert forall|q: Seq<char>|
            #[trigger] files_on_disk(cs, path).contains_key(q) implies exists|i: int|
            0 <= i < cs.len() && q == child_path(path, (#[trigger] cs[i]).name()) by {
            if q == child_path(path, cs[0].name()) {
                assert(q == child_path(path, cs[0].name()));
            } else {
                let i = choose|i: int|
                    0 <= i < cs.skip(1).len() && q == child_path(
                        path,
                        (#[trigger] cs.skip(1)[i]).name(),
                    );
                assert(cs.skip(1)[i] == cs[i + 1]);
                assert(q == child_path(path, cs[i + 1].name()));
            }
        }
        assert forall|q: Seq<char>|
            (exists|i: int| 0 <= i < cs.len() && q == child_path(path, (#[trigger] cs[i]).name()))
                implies files_on_disk(cs, path).contains_key(q) by {
            let i = choose|i: int|
                0 <= i < cs.len() && q == child_path(path, (#[trigger] cs[i]).name());
            if i > 0 {
                assert(cs.skip(1)[i - 1] == cs[i]);
                assert(files_on_disk(cs.skip(1), path).contains_key(q));
            }
        }
        assert forall|i: int|
            0 <= i < cs.len() implies files_on_disk(cs, path)[child_path(
            path,
            (#[trigger] cs[i]).name(),
        )] == (DiskEntry::File {
            id: FileId::FromSource {
                source: cs[i]->File_source,
                path: child_path(path, cs[i].name()),
            },
        }) by {
            if i > 0 {
                assert(cs.skip(1)[i - 1] == cs[i]);
                lemma_child_path_injective(path, cs[0].name(), cs[i].name());
            }
        }
    }
}

/// A file creation at a free path links the new file and takes no backup.
proof fn lemma_create_at_free_path(d: DiskView, q: Seq<char>, source: ModKey)
    requires
        !d.working.contains_key(q),
        !d.backup.contains_key(q),
    ensures
        state_at(d.apply_op(q, OperationKind::CreateFile(source)), q) == (
            Some(DiskEntry::File { id: FileId::FromSource { source, path: q } }),
            None::<FileId>,
        ),
{
    reveal_with_fuel(DiskView::apply_actions, 3);
    let obs = d.observe(q);
    let plan = action_plan(q, OperationKind::CreateFile(source), obs);
    assert(plan =~= seq![ActionView::LinkFromSource { source, path: q }]);
    assert(plan.skip(1) =~= Seq::<ActionView>::empty());
}

/// Removing a file that has no backup frees the path.
proof fn lemma_remove_without_backup(d: DiskView, q: Seq<char>)
    requires
        !d.backup.contains_key(q),
    ensures
        state_at(d.apply_op(q, OperationKind::RemoveFile), q) == (
            None::<DiskEntry>,
            None::<FileId>,
        ),
{
    reveal_with_fuel(DiskView::apply_actions, 3);
    let obs = d.observe(q);
    let plan = action_plan(q, OperationKind::RemoveFile, obs);
    assert(plan =~= seq![ActionView::RemoveWorkingFile { path: q }]);
    assert(plan.skip(1) =~= Seq::<ActionView>::empty());
}

/// The state one path ends in when the flat diff of two trees is applied
/// to a backup-free disk holding exactly the old deployment.
proof fn lemma_flat_convergence_at(
    oldcs: Seq<SourcedNodeView>,
    newcs: Seq<SourcedNodeView>,
    path: Seq<char>,
    d: DiskView,
    q: Seq<char>,
)
    requires
        all_files(oldcs),
        all_files(newcs),
        forall|a: int, b: int| 0 <= a < b < oldcs.len() ==> oldcs[a].name() != oldcs[b].name(),
        forall|a: int, b: int| 0 <= a < b < newcs.len() ==> newcs[a].name() != newcs[b].name(),
        d.working == files_on_disk(oldcs, path),
        d.backup == Map::<Seq<char>, FileId>::empty(),
    ensures
        state_at(
            d.apply_op_list(
                diff_old_children(oldcs, newcs, path) + diff_new_children(oldcs, newcs, path),
            ),
            q,
        ) == (
            if files_on_disk(newcs, path).contains_key(q) {
                Some(files_on_disk(newcs, path)[q])
            } else {
                None::<DiskEntry>
            },
            None::<FileId>,
        ),
{
    let dold = diff_old_children(oldcs, newcs, path);
    let dnew = diff_new_children(oldcs, newcs, path);
    let ops = dold + dnew;
    lemma_flat_old_pass(oldcs, newcs, path);
    lemma_flat_new_pass(oldcs, newcs, path);
    lemma_files_on_disk(oldcs, path);
    lemma_files_on_disk(newcs, path);
    // every operation's kind and cross-pass path distinctness
    assert forall|a: int| 0 <= a < ops.len() implies !((#[trigger] ops[a]).kind
        is RemoveDir) by {
        if a < dold.len() {
            let i = choose|i: int|
                0 <= i < oldcs.len() && Some(dold[a]) == flat_old_op(oldcs[i], newcs, path);
        } else {
            let i = choose|i: int|
                0 <= i < newcs.len() && Some(dnew[a - dold.len()]) == flat_new_op(
                    oldcs,
                    newcs[i],
                    path,
                );
        }
    }
    assert forall|a: int, b: int| 0 <= a < b < ops.len() implies ops[a].path != ops[b].path by {
        if a < dold.len() && b >= dold.len() {
            let i = choose|i: int|
                0 <= i < oldcs.len() && Some(dold[a]) == flat_old_op(oldcs[i], newcs, path);
            let j = choose|j: int|
                0 <= j < newcs.len() && Some(dnew[b - dold.len()]) == flat_new_op(
                    oldcs,
                    newcs[j],
                    path,
                );
            assert(ops[a].path == child_path(path, oldcs[i].name()));
            assert(ops[b].path == child_path(path, newcs[j].name()));
            if ops[a].path == ops[b].path {
                lemma_child_path_injective(path, oldcs[i].name(), newcs[j].name());
                lemma_find_index(oldcs, newcs[j].name());
                assert(find_child(oldcs, newcs[j].name()) is None);
                assert(oldcs[i].name() == newcs[j].name());
                assert(find_index(oldcs, newcs[j].name()) == oldcs.len());
                assert(false);
            }
        } else if a >= dold.len() {
            assert(ops[a] == dnew[a - dold.len()]);
            assert(ops[b] == dnew[b - dold.len()]);
        } else {
            assert(ops[a] == dold[a]);
            assert(ops[b] == dold[b]);
        }
    }
    if exists|idx: int| 0 <= idx < ops.len() && (#[trigger] ops[idx]).path == q {
        let idx = choose|idx: int| 0 <= idx < ops.len() && (#[trigger] ops[idx]).path == q;
        lemma_unique_path_effect(d, ops, q, idx);
        if idx < dold.len() {
            let i = choose|i: int|
                0 <= i < oldcs.len() && Some(dold[idx]) == flat_old_op(oldcs[i], newcs, path);
            let n = oldcs[i].name();
            assert(q == child_path(path, n));
            lemma_find_index(newcs, n);
            match find_child(newcs, n) {
                Some(w) => {
                    // the name survives under a different source
                    let fi = find_index(newcs, n);
                    assert(w == newcs[fi] && w.name() == n);
                    assert(ops[idx].kind == OperationKind::ChangeSource(w->File_source));
                    lemma_change_source_keeps_backup(d, q, w->File_source);
                    assert(q == child_path(path, newcs[fi].name()));
                    assert(files_on_disk(newcs, path).contains_key(q));
                    assert(files_on_disk(newcs, path)[q] == (DiskEntry::File {
                        id: FileId::FromSource { source: w->File_source, path: q },
                    }));
                },
                None => {
                    // the name is gone from the new tree
                    assert(ops[idx].kind == OperationKind::RemoveFile);
                    lemma_remove_without_backup(d, q);
                    if files_on_disk(newcs, path).contains_key(q) {
                        let j = choose|j: int|
                            0 <= j < newcs.len() && q == child_path(
                                path,
                                (#[trigger] newcs[j]).name(),
                            );
                        lemma_child_path_injective(path, n, newcs[j].name());
                        assert(newcs[j].name() == n);
                        assert(find_index(newcs, n) == newcs.len());
                        assert(false);
                    }
                },
            }
        } else {
            let i = choose|i: int|
                0 <= i < newcs.len() && Some(dnew[idx - dold.len()]) == flat_new_op(
                    oldcs,
                    newcs[i],
                    path,
                );
            let n = newcs[i].name();
            assert(find_child(oldcs, n) is None);
            assert(q == child_path(path, n));
            assert(ops[idx].kind == OperationKind::CreateFile(newcs[i]->File_source));
            assert(!d.working.contains_key(q)) by {
                if d.working.contains_key(q) {
                    let j = choose|j: int|
                        0 <= j < oldcs.len() && q == child_path(
                            path,
                            (#[trigger] oldcs[j]).name(),
                        );
                    lemma_child_path_injective(path, n, oldcs[j].name());
                    lemma_find_index(oldcs, n);
                    assert(find_index(oldcs, n) == oldcs.len());
                    assert(false);
                }
            }
            lemma_create_at_free_path(d, q, newcs[i]->File_source);
            assert(files_on_disk(newcs, path).contains_key(q));
            assert(files_on_disk(newcs, path)[q] == (DiskEntry::File {
                id: FileId::FromSource { source: newcs[i]->File_source, path: q },
            }));
        }
    } else {
        assert forall|a: int| 0 <= a < ops.len() implies (#[trigger] ops[a]).path != q by {}
        lemma_untouched_path(d, ops, q);
        if d.working.contains_key(q) {
            // a file both trees keep under one source
            let i = choose|i: int|
                0 <= i < oldcs.len() && q == child_path(path, (#[trigger] oldcs[i]).name());
            let n = oldcs[i].name();
            assert(flat_old_op(oldcs[i], newcs, path) is None) by {
                if flat_old_op(oldcs[i], newcs, path) is Some {
                    assert(dold.contains(flat_old_op(oldcs[i], newcs, path)->0));
                    let w2 = choose|w2: int|
                        0 <= w2 < dold.len() && dold[w2] == flat_old_op(oldcs[i], newcs, path)->0;
                    assert(ops[w2].path == q);
                    assert(false);
                }
            }
            lemma_find_index(newcs, n);
            let fi = find_index(newcs, n);
            assert(fi < newcs.len() && newcs[fi].name() == n);
            assert(newcs[fi]->File_source == oldcs[i]->File_source);
            assert(q == child_path(path, newcs[fi].name()));
            assert(files_on_disk(newcs, path).contains_key(q));
            assert(files_on_disk(newcs, path)[q] == d.working[q]);
        } else {
            // neither tree holds the path
            if files_on_disk(newcs, path).contains_key(q) {
                let i = choose|i: int|
                    0 <= i < newcs.len() && q == child_path(path, (#[trigger] newcs[i]).name());
                let n = newcs[i].name();
                assert(flat_new_op(oldcs, newcs[i], path) is None) by {
                    if flat_new_op(oldcs, newcs[i], path) is Some {
                        assert(dnew.contains(flat_new_op(oldcs, newcs[i], path)->0));
                        let w2 = choose|w2: int|
                            0 <= w2 < dnew.len() && dnew[w2] == flat_new_op(
                                oldcs,
                                newcs[i],
                                path,
                            )->0;
                        assert(ops[dold.len() + w2].path == q);
                        assert(false);
                    }
                }
                lemma_find_index(oldcs, n);
                let fi = find_index(oldcs, n);
                assert(fi < oldcs.len() && oldcs[fi].name() == n);
                assert(q == child_path(path, oldcs[fi].name()));
                assert(d.working.contains_key(q));
                assert(false);
            }
        }
    }
}

/// Deployment convergence for flat trees: applying the diff of two flat
/// trees to a backup-free disk that holds exactly the old deployment
/// leaves exactly the new deployment and no backups — the same end state
/// that deploying the new tree onto an empty directory reaches.
pub proof fn lemma_flat_convergence(
    oldcs: Seq<SourcedNodeView>,
    newcs: Seq<SourcedNodeView>,
    path: Seq<char>,
    d: DiskView,
)
    requires
        all_files(oldcs),
        all_files(newcs),
        forall|a: int, b: int| 0 <= a < b < oldcs.len() ==> oldcs[a].name() != oldcs[b].name(),
        forall|a: int, b: int| 0 <= a < b < newcs.len() ==> newcs[a].name() != newcs[b].name(),
        d.working == files_on_disk(oldcs, path),
        d.backup == Map::<Seq<char>, FileId>::empty(),
    ensures
        ({
            let d2 = d.apply_op_list(
                diff_old_children(oldcs, newcs, path) + diff_new_children(oldcs, newcs, path),
            );
            &&& d2.working =~= files_on_disk(newcs, path)
            &&& d2.backup =~= Map::<Seq<char>, FileId>::empty()
        }),
{
    let d2 = d.apply_op_list(
        diff_old_children(oldcs, newcs, path) + diff_new_children(oldcs, newcs, path),
    );
    let target = files_on_disk(newcs, path);
    assert forall|q: Seq<char>| #[trigger] d2.working.contains_key(q) implies target.contains_key(
        q,
    ) && d2.working[q] == target[q] by {
        lemma_flat_convergence_at(oldcs, newcs, path, d, q);
    }
    assert forall|q: Seq<char>| #[trigger] target.contains_key(q) implies d2.working.contains_key(
        q,
    ) by {
        lemma_flat_convergence_at(oldcs, newcs, path, d, q);
    }
    assert forall|q: Seq<char>| !(#[trigger] d2.backup.contains_key(q)) by {
        lemma_flat_convergence_at(oldcs, newcs, path, d, q);
    }
}

/// A file creation over an occupant that has no backup yet preserves the
/// occupant in the backup before linking the new file.
proof fn lemma_create_over_occupant(d: DiskView, q: Seq<char>, source: ModKey)
    requires
        d.working.contains_key(q),
        d.working[q] is File,
        !d.backup.contains_key(q),
    ensures
        state_at(d.apply_op(q, OperationKind::CreateFile(source)), q) == (
            Some(DiskEntry::File { id: FileId::FromSource { source, path: q } }),
            Some(d.working[q]->File_id),
        ),
{
    reveal_with_fuel(DiskView::apply_actions, 5);
    let obs = d.observe(q);
    let plan = action_plan(q, OperationKind::CreateFile(source), obs);
    assert(plan =~= seq![
        ActionView::BackupFile { path: q },
        ActionView::RemoveWorkingFile { path: q },
        ActionView::LinkFromSource { source, path: q },
    ]);
    assert(plan.skip(1) =~= seq![
        ActionView::RemoveWorkingFile { path: q },
        ActionView::LinkFromSource { source, path: q },
    ]);
    assert(plan.skip(1).skip(1) =~= seq![ActionView::LinkFromSource { source, path: q }]);
    assert(plan.skip(1).skip(1).skip(1) =~= Seq::<ActionView>::empty());
}

/// Removing a file that has a backup puts the preserved file back and
/// consumes the backup entry.
proof fn lemma_remove_with_backup(d: DiskView, q: Seq<char>)
    requires
        d.backup.contains_key(q),
    ensures
        state_at(d.apply_op(q, OperationKind::RemoveFile), q) == (
            Some(DiskEntry::File { id: d.backup[q] }),
            None::<FileId>,
        ),
{
    reveal_with_fuel(DiskView::apply_actions, 4);
    let obs = d.observe(q);
    let plan = action_plan(q, OperationKind::RemoveFile, obs);
    assert(plan =~= seq![
        ActionView::RemoveWorkingFile { path: q },
        ActionView::RestoreBackup { path: q },
    ]);
    assert(plan.skip(1) =~= seq![ActionView::RestoreBackup { path: q }]);
    assert(plan.skip(1).skip(1) =~= Seq::<ActionView>::empty());
}

/// The working directory when the flat deployment of `cs` overlays the
/// pre-existing files `pre`: a deployed path shows the overlay's file,
/// any other pre-existing file shows through.
pub open spec fn overlay_working(
    pre: Map<Seq<char>, DiskEntry>,
    cs: Seq<SourcedNodeView>,
    path: Seq<char>,
) -> Map<Seq<char>, DiskEntry> {
    pre.union_prefer_right(files_on_disk(cs, path))
}

/// The backup directory for that overlay: exactly the pre-existing files
/// whose paths the deployment claims, preserved under their identity.
pub open spec fn overlay_backup(
    pre: Map<Seq<char>, DiskEntry>,
    cs: Seq<SourcedNodeView>,
    path: Seq<char>,
) -> Map<Seq<char>, FileId> {
    Map::new(
        |q: Seq<char>| pre.contains_key(q) && files_on_disk(cs, path).contains_key(q),
        |q: Seq<char>| pre[q]->File_id,
    )
}

/// The state one path ends in when the flat diff is applied to a disk
/// holding the old deployment over pre-existing files.
proof fn lemma_flat_overlay_at(
    oldcs: Seq<SourcedNodeView>,
    newcs: Seq<SourcedNodeView>,
    path: Seq<char>,
    pre: Map<Seq<char>, DiskEntry>,
    d: DiskView,
    q: Seq<char>,
)
    requires
        all_files(oldcs),
        all_files(newcs),
        forall|a: int, b: int| 0 <= a < b < oldcs.len() ==> oldcs[a].name() != oldcs[b].name(),
        forall|a: int, b: int| 0 <= a < b < newcs.len() ==> newcs[a].name() != newcs[b].name(),
        forall|p: Seq<char>| #[trigger] pre.contains_key(p) ==> pre[p] is File,
        d.working == overlay_working(pre, oldcs, path),
        d.backup == overlay_backup(pre, oldcs, path),
    ensures
        state_at(
            d.apply_op_list(
                diff_old_children(oldcs, newcs, path) + diff_new_children(oldcs, newcs, path),
            ),
            q,
        ) == (
            if overlay_working(pre, newcs, path).contains_key(q) {
                Some(overlay_working(pre, newcs, path)[q])
            } else {
                None::<DiskEntry>
            },
            if overlay_backup(pre, newcs, path).contains_key(q) {
                Some(overlay_backup(pre, newcs, path)[q])
            } else {
                None::<FileId>
            },
        ),
{
    let dold = diff_old_children(oldcs, newcs, path);
    let dnew = diff_new_children(oldcs, newcs, path);
    let ops = dold + dnew;
    lemma_flat_old_pass(oldcs, newcs, path);
    lemma_flat_new_pass(oldcs, newcs, path);
    lemma_files_on_disk(oldcs, path);
    lemma_files_on_disk(newcs, path);
    assert forall|a: int| 0 <= a < ops.len() implies !((#[trigger] ops[a]).kind
        is RemoveDir) by {
        if a < dold.len() {
            let i = choose|i: int|
                0 <= i < oldcs.len() && Some(dold[a]) == flat_old_op(oldcs[i], newcs, path);
        } else {
            let i = choose|i: int|
                0 <= i < newcs.len() && Some(dnew[a - dold.len()]) == flat_new_op(
                    oldcs,
                    newcs[i],
                    path,
                );
        }
    }
    assert forall|a: int, b: int| 0 <= a < b < ops.len() implies ops[a].path != ops[b].path by {
        if a < dold.len() && b >= dold.len() {
            let i = choose|i: int|
                0 <= i < oldcs.len() && Some(dold[a]) == flat_old_op(oldcs[i], newcs, path);
            let j = choose|j: int|
                0 <= j < newcs.len() && Some(dnew[b - dold.len()]) == flat_new_op(
                    oldcs,
                    newcs[j],
                    path,
                );
            assert(ops[a].path == child_path(path, oldcs[i].name()));
            assert(ops[b].path == child_path(path, newcs[j].name()));
            if ops[a].path == ops[b].path {
                lemma_child_path_injective(path, oldcs[i].name(), newcs[j].name());
                lemma_find_index(oldcs, newcs[j].name());
                assert(false);
            }
        } else if a >= dold.len() {
            assert(ops[a] == dnew[a - dold.len()]);
            assert(ops[b] == dnew[b - dold.len()]);
        } else {
            assert(ops[a] == dold[a]);
            assert(ops[b] == dold[b]);
        }
    }
    let wt = overlay_working(pre, newcs, path);
    let bt = overlay_backup(pre, newcs, path);
    if exists|idx: int| 0 <= idx < ops.len() && (#[trigger] ops[idx]).path == q {
        let idx = choose|idx: int| 0 <= idx < ops.len() && (#[trigger] ops[idx]).path == q;
        lemma_unique_path_effect(d, ops, q, idx);
        if idx < dold.len() {
            let i = choose|i: int|
                0 <= i < oldcs.len() && Some(dold[idx]) == flat_old_op(oldcs[i], newcs, path);
            let n = oldcs[i].name();
            assert(q == child_path(path, n));
            assert(files_on_disk(oldcs, path).contains_key(q));
            lemma_find_index(newcs, n);
            match find_child(newcs, n) {
                Some(w) => {
                    let fi = find_index(newcs, n);
                    assert(w == newcs[fi] && w.name() == n);
                    assert(ops[idx].kind == OperationKind::ChangeSource(w->File_source));
                    lemma_change_source_keeps_backup(d, q, w->File_source);
                    assert(q == child_path(path, newcs[fi].name()));
                    assert(files_on_disk(newcs, path).contains_key(q));
                    assert(wt.contains_key(q) && wt[q] == (DiskEntry::File {
                        id: FileId::FromSource { source: w->File_source, path: q },
                    }));
                    assert(bt.contains_key(q) == d.backup.contains_key(q));
                },
                None => {
                    assert(ops[idx].kind == OperationKind::RemoveFile);
                    assert(!files_on_disk(newcs, path).contains_key(q)) by {
                        if files_on_disk(newcs, path).contains_key(q) {
                            let j = choose|j: int|
                                0 <= j < newcs.len() && q == child_path(
                                    path,
                                    (#[trigger] newcs[j]).name(),
                                );
                            lemma_child_path_injective(path, n, newcs[j].name());
                            assert(false);
                        }
                    }
                    assert(!bt.contains_key(q));
                    if pre.contains_key(q) {
                        assert(d.backup.contains_key(q) && d.backup[q] == pre[q]->File_id);
                        lemma_remove_with_backup(d, q);
                        assert(wt.contains_key(q) && wt[q] == pre[q]);
                    } else {
                        assert(!d.backup.contains_key(q));
                        lemma_remove_without_backup(d, q);
                        assert(!wt.contains_key(q));
                    }
                },
            }
        } else {
            let i = choose|i: int|
                0 <= i < newcs.len() && Some(dnew[idx - dold.len()]) == flat_new_op(
                    oldcs,
                    newcs[i],
                    path,
                );
            let n = newcs[i].name();
            assert(find_child(oldcs, n) is None);
            assert(q == child_path(path, n));
            assert(ops[idx].kind == OperationKind::CreateFile(newcs[i]->File_source));
            assert(!files_on_disk(oldcs, path).contains_key(q)) by {
                if files_on_disk(oldcs, path).contains_key(q) {
                    let j = choose|j: int|
                        0 <= j < oldcs.len() && q == child_path(
                            path,
                            (#[trigger] oldcs[j]).name(),
                        );
                    lemma_child_path_injective(path, n, oldcs[j].name());
                    lemma_find_index(oldcs, n);
                    assert(false);
                }
            }
            assert(files_on_disk(newcs, path).contains_key(q));
            assert(files_on_disk(newcs, path)[q] == (DiskEntry::File {
                id: FileId::FromSource { source: newcs[i]->File_source, path: q },
            }));
            assert(!d.backup.contains_key(q));
            if pre.contains_key(q) {
                assert(d.working.contains_key(q) && d.working[q] == pre[q]);
                lemma_create_over_occupant(d, q, newcs[i]->File_source);
                assert(bt.contains_key(q) && bt[q] == pre[q]->File_id);
            } else {
                assert(!d.working.contains_key(q));
                lemma_create_at_free_path(d, q, newcs[i]->File_source);
                assert(!bt.contains_key(q));
            }
        }
    } else {
        assert forall|a: int| 0 <= a < ops.len() implies (#[trigger] ops[a]).path != q by {}
        lemma_untouched_path(d, ops, q);
        if files_on_disk(oldcs, path).contains_key(q) {
            // a path both deployments claim with one source
            let i = choose|i: int|
                0 <= i < oldcs.len() && q == child_path(path, (#[trigger] oldcs[i]).name());
            let n = oldcs[i].name();
            assert(flat_old_op(oldcs[i], newcs, path) is None) by {
                if flat_old_op(oldcs[i], newcs, path) is Some {
                    assert(dold.contains(flat_old_op(oldcs[i], newcs, path)->0));
                    let w2 = choose|w2: int|
                        0 <= w2 < dold.len() && dold[w2] == flat_old_op(oldcs[i], newcs, path)->0;
                    assert(ops[w2].path == q);
                    assert(false);
                }
            }
            lemma_find_index(newcs, n);
            let fi = find_index(newcs, n);
            assert(fi < newcs.len() && newcs[fi].name() == n);
            assert(newcs[fi]->File_source == oldcs[i]->File_source);
            assert(q == child_path(path, newcs[fi].name()));
            assert(files_on_disk(newcs, path).contains_key(q));
            assert(files_on_disk(newcs, path)[q] == files_on_disk(oldcs, path)[q]);
            assert(wt.contains_key(q) && wt[q] == d.working[q]);
            assert(bt.contains_key(q) == d.backup.contains_key(q));
        } else {
            assert(!files_on_disk(newcs, path).contains_key(q)) by {
                if files_on_disk(newcs, path).contains_key(q) {
                    let i = choose|i: int|
                        0 <= i < newcs.len() && q == child_path(
                            path,
                            (#[trigger] newcs[i]).name(),
                        );
                    let n = newcs[i].name();
                    assert(flat_new_op(oldcs, newcs[i], path) is None) by {
                        if flat_new_op(oldcs, newcs[i], path) is Some {
                            assert(dnew.contains(flat_new_op(oldcs, newcs[i], path)->0));
                            let w2 = choose|w2: int|
                                0 <= w2 < dnew.len() && dnew[w2] == flat_new_op(
                                    oldcs,
                                    newcs[i],
                                    path,
                                )->0;
                            assert(ops[dold.len() + w2].path == q);
                            assert(false);
                        }
                    }
                    lemma_find_index(oldcs, n);
                    let fi = find_index(oldcs, n);
                    assert(fi < oldcs.len() && oldcs[fi].name() == n);
                    assert(q == child_path(path, oldcs[fi].name()));
                    assert(files_on_disk(oldcs, path).contains_key(q));
                    assert(false);
                }
            }
            // only a pre-existing file, or nothing, sits here either way
            assert(wt.contains_key(q) == d.working.contains_key(q));
            assert(!bt.contains_key(q) && !d.backup.contains_key(q));
        }
    }
}

/// Backup/restore round trip over whole deployments, for flat trees:
/// activating an overlay over pre-existing files and deactivating it
/// again restores every pre-existing file under its original identity
/// and leaves no residual backup entry.
pub proof fn lemma_flat_backup_restore_cycle(
    tcs: Seq<SourcedNodeView>,
    path: Seq<char>,
    pre: Map<Seq<char>, DiskEntry>,
    d0: DiskView,
)
    requires
        all_files(tcs),
        forall|a: int, b: int| 0 <= a < b < tcs.len() ==> tcs[a].name() != tcs[b].name(),
        forall|p: Seq<char>| #[trigger] pre.contains_key(p) ==> pre[p] is File,
        d0.working == pre,
        d0.backup == Map::<Seq<char>, FileId>::empty(),
    ensures
        ({
            let none: Seq<SourcedNodeView> = Seq::empty();
            let up = diff_old_children(none, tcs, path) + diff_new_children(none, tcs, path);
            let down = diff_old_children(tcs, none, path) + diff_new_children(tcs, none, path);
            let d1 = d0.apply_op_list(up);
            let d2 = d1.apply_op_list(down);
            &&& d1.backup =~= overlay_backup(pre, tcs, path)
            &&& d2.working =~= pre
            &&& d2.backup =~= Map::<Seq<char>, FileId>::empty()
        }),
{
    let none: Seq<SourcedNodeView> = Seq::empty();
    let up = diff_old_children(none, tcs, path) + diff_new_children(none, tcs, path);
    let down = diff_old_children(tcs, none, path) + diff_new_children(tcs, none, path);
    let d1 = d0.apply_op_list(up);
    let d2 = d1.apply_op_list(down);
    assert(files_on_disk(none, path) =~= Map::<Seq<char>, DiskEntry>::empty());
    assert(d0.working =~= overlay_working(pre, none, path));
    assert(d0.backup =~= overlay_backup(pre, none, path));
    assert(d0.working == overlay_working(pre, none, path));
    assert(d0.backup == overlay_backup(pre, none, path));
    assert forall|q: Seq<char>| #[trigger] d1.working.contains_key(q) implies overlay_working(
        pre,
        tcs,
        path,
    ).contains_key(q) && d1.working[q] == overlay_working(pre, tcs, path)[q] by {
        lemma_flat_overlay_at(none, tcs, path, pre, d0, q);
    }
    assert forall|q: Seq<char>| #[trigger] overlay_working(pre, tcs, path).contains_key(q) implies d1.working.contains_key(
        q,
    ) by {
        lemma_flat_overlay_at(none, tcs, path, pre, d0, q);
    }
    assert forall|q: Seq<char>| #[trigger] d1.backup.contains_key(q) implies overlay_backup(
        pre,
        tcs,
        path,
    ).contains_key(q) && d1.backup[q] == overlay_backup(pre, tcs, path)[q] by {
        lemma_flat_overlay_at(none, tcs, path, pre, d0, q);
    }
    assert forall|q: Seq<char>| #[trigger] overlay_backup(pre, tcs, path).contains_key(q) implies d1.backup.contains_key(
        q,
    ) by {
        lemma_flat_overlay_at(none, tcs, path, pre, d0, q);
    }
    assert(d1.working =~= overlay_working(pre, tcs, path));
    assert(d1.backup =~= overlay_backup(pre, tcs, path));
    assert(d1.working == overlay_working(pre, tcs, path));
    assert(d1.backup == overlay_backup(pre, tcs, path));
    assert forall|q: Seq<char>| #[trigger] d2.working.contains_key(q) implies overlay_working(
        pre,
        none,
        path,
    ).contains_key(q) && d2.working[q] == overlay_working(pre, none, path)[q] by {
        lemma_flat_overlay_at(tcs, none, path, pre, d1, q);
    }
    assert forall|q: Seq<char>| #[trigger] overlay_working(pre, none, path).contains_key(q) implies d2.working.contains_key(
        q,
    ) by {
        lemma_flat_overlay_at(tcs, none, path, pre, d1, q);
    }
    assert forall|q: Seq<char>| !(#[trigger] d2.backup.contains_key(q)) by {
        lemma_flat_overlay_at(tcs, none, path, pre, d1, q);
    }
    assert(d2.working =~= overlay_working(pre, none, path));
    assert(d2.working =~= pre);
    assert(d2.backup =~= Map::<Seq<char>, FileId>::empty());
}

/// Diff-then-apply-then-redeploy convergence, for flat trees: starting
/// from the empty deployed tree and an empty disk, synchronizing to the
/// merged tree `t1` and then to `t2` leaves the working directory in the
/// same state as synchronizing directly to `t2`, backups aside — and no
/// backup entries remain either way.
pub proof fn lemma_flat_two_step_deployment(
    t1: SourcedNodeView,
    t2: SourcedNodeView,
    path: Seq<char>,
    d0: DiskView,
)
    requires
        t1 is Dir,
        t2 is Dir,
        all_files(t1->Dir_children),
        all_files(t2->Dir_children),
        forall|a: int, b: int|
            0 <= a < b < t1->Dir_children.len() ==> t1->Dir_children[a].name()
                != t1->Dir_children[b].name(),
        forall|a: int, b: int|
            0 <= a < b < t2->Dir_children.len() ==> t2->Dir_children[a].name()
                != t2->Dir_children[b].name(),
        d0.working == Map::<Seq<char>, DiskEntry>::empty(),
        d0.backup == Map::<Seq<char>, FileId>::empty(),
    ensures
        ({
            let empty_tree = SourcedNodeView::Dir { name: t1.name(), children: Seq::empty() };
            let stepwise = d0.apply_op_list(crate::node::diff_ops(empty_tree, t1, path))
                .apply_op_list(crate::node::diff_ops(t1, t2, path));
            let direct = d0.apply_op_list(crate::node::diff_ops(empty_tree, t2, path));
            &&& stepwise.working =~= direct.working
            &&& stepwise.backup =~= Map::<Seq<char>, FileId>::empty()
            &&& direct.backup =~= Map::<Seq<char>, FileId>::empty()
        }),
{
    let empty_tree = SourcedNodeView::Dir { name: t1.name(), children: Seq::empty() };
    let none: Seq<SourcedNodeView> = Seq::empty();
    let c1 = t1->Dir_children;
    let c2 = t2->Dir_children;
    assert(files_on_disk(none, path) =~= Map::<Seq<char>, DiskEntry>::empty());
    lemma_flat_convergence(none, c1, path, d0);
    let d1 = d0.apply_op_list(diff_old_children(none, c1, path) + diff_new_children(none, c1, path));
    assert(crate::node::diff_ops(empty_tree, t1, path) == diff_old_children(none, c1, path)
        + diff_new_children(none, c1, path));
    let d1n = DiskView { working: files_on_disk(c1, path), backup: Map::empty() };
    assert(d1.working == d1n.working && d1.backup == d1n.backup);
    assert(d1 == d1n);
    lemma_flat_convergence(c1, c2, path, d1);
    assert(crate::node::diff_ops(t1, t2, path) == diff_old_children(c1, c2, path)
        + diff_new_children(c1, c2, path));
    lemma_flat_convergence(none, c2, path, d0);
    assert(crate::node::diff_ops(empty_tree, t2, path) == diff_old_children(none, c2, path)
        + diff_new_children(none, c2, path));
}

} // verus!
