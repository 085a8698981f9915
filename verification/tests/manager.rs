use modulate::deploy::{actions_for, DiskObservation, FsAction};
use modulate::node::{Node, Operation, OperationKind};
use modulate::{Mod, ModError, ModKey, ModManager, ModMetadata, Version};

fn entry(name: &str, uuid: u128) -> Mod {
    Mod {
        metadata: ModMetadata {
            name: name.to_string(),
            version: Version { major: 0, minor: 1, patch: 0 },
            uuid,
        },
        dir: format!("/mods/{}", name),
        node: Node::Dir { name: name.to_string(), children: vec![Node::File { name: "f".to_string() }] },
    }
}

#[test]
fn add_and_list_mods() {
    let mut m = ModManager::new();
    let u1 = m.add_mod(entry("one", 11));
    let u2 = m.add_mod(entry("two", 22));
    assert_eq!(u1, 11);
    assert_eq!(u2, 22);
    assert_eq!(m.active_mods().len(), 0);
    let inactive = m.inactive_mods();
    assert_eq!(inactive.len(), 2);
    assert_eq!(inactive[0].name, "one");
    assert_eq!(inactive[1].name, "two");
}

#[test]
fn activate_moves_mod_between_lists() {
    let mut m = ModManager::new();
    let u1 = m.add_mod(entry("one", 11));
    m.activate_mod(u1).unwrap();
    assert_eq!(m.active_mods().len(), 1);
    assert_eq!(m.inactive_mods().len(), 0);
    m.deactivate_mod(u1).unwrap();
    assert_eq!(m.active_mods().len(), 0);
    assert_eq!(m.inactive_mods().len(), 1);
}

#[test]
fn activate_unknown_uuid_is_rejected() {
    let mut m = ModManager::new();
    assert_eq!(m.activate_mod(99), Err(ModError::InvalidModUuid(99)));
}

#[test]
fn activate_twice_is_rejected() {
    let mut m = ModManager::new();
    let u1 = m.add_mod(entry("one", 11));
    m.activate_mod(u1).unwrap();
    assert_eq!(m.activate_mod(u1), Err(ModError::InvalidModUuid(11)));
}

#[test]
fn deactivate_inactive_mod_is_rejected() {
    let mut m = ModManager::new();
    let u1 = m.add_mod(entry("one", 11));
    assert_eq!(m.deactivate_mod(u1), Err(ModError::InvalidModUuid(11)));
}

#[test]
fn remove_active_mod_is_rejected() {
    let mut m = ModManager::new();
    let u1 = m.add_mod(entry("one", 11));
    m.activate_mod(u1).unwrap();
    assert_eq!(m.remove_mod(u1), Err(ModError::InvalidModUuid(11)));
    m.deactivate_mod(u1).unwrap();
    m.remove_mod(u1).unwrap();
    assert_eq!(m.inactive_mods().len(), 0);
    assert_eq!(m.remove_mod(u1), Err(ModError::InvalidModUuid(11)));
}

#[test]
fn reorder_requires_a_permutation() {
    let mut m = ModManager::new();
    let u1 = m.add_mod(entry("one", 11));
    let u2 = m.add_mod(entry("two", 22));
    m.activate_mod(u1).unwrap();
    m.activate_mod(u2).unwrap();
    assert_eq!(
        m.reorder_mods(&[0]),
        Err(ModError::InvalidModOrder(vec![0]))
    );
    assert_eq!(
        m.reorder_mods(&[0, 0]),
        Err(ModError::InvalidModOrder(vec![0, 0]))
    );
    assert_eq!(
        m.reorder_mods(&[0, 2]),
        Err(ModError::InvalidModOrder(vec![0, 2]))
    );
    m.reorder_mods(&[1, 0]).unwrap();
    let active = m.active_mods();
    assert_eq!(active[0].name, "two");
    assert_eq!(active[1].name, "one");
}

fn op(path: &str, kind: OperationKind) -> Operation {
    Operation { path: path.to_string(), kind }
}

#[test]
fn create_file_over_occupant_backs_it_up_first() {
    let obs = DiskObservation { working_exists: true, backup_exists: false, dir_is_empty: false };
    let acts = actions_for(&op("/f", OperationKind::CreateFile(ModKey { id: 3 })), obs);
    assert_eq!(
        acts,
        vec![
            FsAction::BackupFile { path: "/f".to_string() },
            FsAction::RemoveWorkingFile { path: "/f".to_string() },
            FsAction::LinkFromSource { source: ModKey { id: 3 }, path: "/f".to_string() },
        ]
    );
}

#[test]
fn create_file_never_backs_up_twice() {
    let obs = DiskObservation { working_exists: true, backup_exists: true, dir_is_empty: false };
    let acts = actions_for(&op("/f", OperationKind::CreateFile(ModKey { id: 3 })), obs);
    assert_eq!(
        acts,
        vec![
            FsAction::RemoveWorkingFile { path: "/f".to_string() },
            FsAction::LinkFromSource { source: ModKey { id: 3 }, path: "/f".to_string() },
        ]
    );
}

#[test]
fn create_file_on_free_path_just_links() {
    let obs = DiskObservation { working_exists: false, backup_exists: false, dir_is_empty: false };
    let acts = actions_for(&op("/f", OperationKind::CreateFile(ModKey { id: 3 })), obs);
    assert_eq!(
        acts,
        vec![FsAction::LinkFromSource { source: ModKey { id: 3 }, path: "/f".to_string() }]
    );
}

#[test]
fn remove_file_restores_backup_if_present() {
    let obs = DiskObservation { working_exists: true, backup_exists: true, dir_is_empty: false };
    let acts = actions_for(&op("/f", OperationKind::RemoveFile), obs);
    assert_eq!(
        acts,
        vec![
            FsAction::RemoveWorkingFile { path: "/f".to_string() },
            FsAction::RestoreBackup { path: "/f".to_string() },
        ]
    );
    let obs2 = DiskObservation { working_exists: true, backup_exists: false, dir_is_empty: false };
    let acts2 = actions_for(&op("/f", OperationKind::RemoveFile), obs2);
    assert_eq!(acts2, vec![FsAction::RemoveWorkingFile { path: "/f".to_string() }]);
}

#[test]
fn change_source_never_touches_the_backup() {
    let obs = DiskObservation { working_exists: true, backup_exists: true, dir_is_empty: false };
    let acts = actions_for(&op("/f", OperationKind::ChangeSource(ModKey { id: 5 })), obs);
    assert_eq!(
        acts,
        vec![
            FsAction::RemoveWorkingFile { path: "/f".to_string() },
            FsAction::LinkFromSource { source: ModKey { id: 5 }, path: "/f".to_string() },
        ]
    );
}

#[test]
fn nonempty_directory_is_left_in_place() {
    let obs = DiskObservation { working_exists: true, backup_exists: false, dir_is_empty: false };
    let acts = actions_for(&op("/d", OperationKind::RemoveDir), obs);
    assert!(acts.is_empty());
    let obs2 = DiskObservation { working_exists: true, backup_exists: false, dir_is_empty: true };
    let acts2 = actions_for(&op("/d", OperationKind::RemoveDir), obs2);
    assert_eq!(acts2, vec![FsAction::RemoveWorkingDir { path: "/d".to_string() }]);
}

#[test]
fn create_dir_plans_one_step() {
    let obs = DiskObservation { working_exists: false, backup_exists: false, dir_is_empty: false };
    let acts = actions_for(&op("/d", OperationKind::CreateDir), obs);
    assert_eq!(acts, vec![FsAction::EnsureWorkingDir { path: "/d".to_string() }]);
}
