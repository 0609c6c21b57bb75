use s1bcr4ft_core::audit::{archived_count, select_entries, AuditAction, AuditEntry, AuditLogger, EntryFilter};
use s1bcr4ft_core::backup::{
    cleanup_count, description_or_default, installed_package_names, metadata_file_name, newest_first,
    snapshot_file_name, BackupManager,
};

fn entry(timestamp: i64, action: &str, user: &str, success: bool) -> AuditEntry {
    AuditEntry {
        timestamp,
        action: action.to_string(),
        user: user.to_string(),
        details: serde_json::Value::Null,
        success,
    }
}

fn sample() -> Vec<AuditEntry> {
    vec![
        entry(10, "sync", "alice", true),
        entry(20, "package_install", "bob", false),
        entry(30, "sync", "bob", false),
        entry(40, "rollback", "alice", true),
    ]
}

fn times(selected: &[&AuditEntry]) -> Vec<i64> {
    selected.iter().map(|e| e.timestamp).collect()
}

#[test]
fn filter_by_action() {
    let all = sample();
    assert_eq!(times(&select_entries(&all, &EntryFilter::Action(AuditAction::Sync))), vec![10, 30]);
    assert!(select_entries(&all, &EntryFilter::Action(AuditAction::ModuleAdd)).is_empty());
}

#[test]
fn filter_by_user_failure_and_time() {
    let all = sample();
    assert_eq!(times(&select_entries(&all, &EntryFilter::User("bob".to_string()))), vec![20, 30]);
    assert_eq!(times(&select_entries(&all, &EntryFilter::Failed)), vec![20, 30]);
    assert_eq!(times(&select_entries(&all, &EntryFilter::Since(30))), vec![30, 40]);
    assert_eq!(select_entries(&all, &EntryFilter::All).len(), 4);
}

#[test]
fn rotation_and_cleanup_counts() {
    assert_eq!(archived_count(10, 4), 6);
    assert_eq!(archived_count(3, 4), 0);
    assert_eq!(archived_count(4, 4), 0);
    assert_eq!(cleanup_count(5, 2), 3);
    assert_eq!(cleanup_count(2, 5), 0);
}

#[test]
fn logger_and_manager_paths() {
    let logger = AuditLogger::with_file("/tmp/audit.log".to_string());
    assert_eq!(logger.log_file(), "/tmp/audit.log");
    let manager = BackupManager::for_dir("/tmp/backups".to_string());
    assert_eq!(manager.backup_dir(), "/tmp/backups");
}

#[test]
fn backups_listed_newest_first_stably() {
    assert_eq!(newest_first(&[5, 9, 5, 1, 9]), vec![1, 4, 0, 2, 3]);
    assert!(newest_first(&[]).is_empty());
    assert_eq!(newest_first(&[-3]), vec![0]);
}

#[test]
fn backup_names_and_description() {
    assert_eq!(metadata_file_name("abc"), "abc.json");
    assert_eq!(snapshot_file_name("abc"), "abc.config.yml");
    assert_eq!(description_or_default(None), "Manual backup");
    assert_eq!(description_or_default(Some("before upgrade".to_string())), "before upgrade");
}

#[test]
fn package_names_from_query_output() {
    let output = "linux 6.9.1-arch1-1\n  vim 9.1-1\n\n\u{3000}git\t2.45\r\ntrailing";
    assert_eq!(installed_package_names(output), vec!["linux", "vim", "git", "trailing"]);
    assert!(installed_package_names("").is_empty());
}

#[test]
fn test_filter_by_action() {
    let entries = vec![entry(1, AuditAction::Sync.as_str(), "u", true), entry(2, AuditAction::BackupCreate.as_str(), "u", true)];
    let sync_entries = select_entries(&entries, &EntryFilter::Action(AuditAction::Sync));
    assert_eq!(sync_entries.len(), 1);
}
