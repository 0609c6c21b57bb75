use vstd::prelude::*;

verus! {

/// The kinds of change that the audit log records.
#[derive(Debug, Clone, Copy, PartialEq, Eq, Structural)]
pub enum AuditAction {
    Sync,
    Rollback,
    ConfigChange,
    PackageInstall,
    PackageRemove,
    BackupCreate,
    BackupRestore,
    ModuleAdd,
    ModuleRemove,
}

/// The name under which an action is logged.
pub open spec fn action_name(a: AuditAction) -> Seq<char> {
    match a {
        AuditAction::Sync => "sync"@,
        AuditAction::Rollback => "rollback"@,
        AuditAction::ConfigChange => "config_change"@,
        AuditAction::PackageInstall => "package_install"@,
        AuditAction::PackageRemove => "package_remove"@,
        AuditAction::BackupCreate => "backup_create"@,
        AuditAction::BackupRestore => "backup_restore"@,
        AuditAction::ModuleAdd => "module_add"@,
        AuditAction::ModuleRemove => "module_remove"@,
    }
}

impl AuditAction {
    /// The name under which the action is logged.
    pub fn as_str(&self) -> (r: &'static str)
        ensures
            r@ == action_name(*self),
    {
        match self {
            AuditAction::Sync => "sync",
            AuditAction::Rollback => "rollback",
            AuditAction::ConfigChange => "config_change",
            AuditAction::PackageInstall => "package_install",
            AuditAction::PackageRemove => "package_remove",
            AuditAction::BackupCreate => "backup_create",
            AuditAction::BackupRestore => "backup_restore",
            AuditAction::ModuleAdd => "module_add",
            AuditAction::ModuleRemove => "module_remove",
        }
    }
}


/// One record of the audit log.
#[derive(Debug, Clone)]
pub struct AuditEntry {
    /// When the action happened, in microseconds since the Unix epoch (UTC).
    pub timestamp: i64,
    /// The action's name, as `AuditAction::as_str` gives it or a custom one.
    pub action: String,
    pub user: String,
    pub details: serde_json::Value,
    pub success: bool,
}

/// Which audit entries a query asks for.
#[derive(Debug, Clone)]
pub enum EntryFilter {
    All,
    /// Entries at or after this time, in microseconds since the Unix epoch.
    Since(i64),
    Action(AuditAction),
    User(String),
    Failed,
}

/// Whether filter `f` keeps entry `e`.
pub open spec fn keeps(f: EntryFilter, e: AuditEntry) -> bool {
    match f {
        EntryFilter::All => true,
        EntryFilter::Since(t) => e.timestamp >= t,
        EntryFilter::Action(a) => e.action@ == action_name(a),
        EntryFilter::User(u) => e.user@ == u@,
        EntryFilter::Failed => !e.success,
    }
}

/// The entries of `entries` that `f` keeps, in order.
pub open spec fn selection(entries: Seq<AuditEntry>, f: EntryFilter) -> Seq<AuditEntry>
    decreases entries.len(),
{
    if entries.len() == 0 {
        Seq::empty()
    } else if keeps(f, entries.last()) {
        selection(entries.drop_last(), f).push(entries.last())
    } else {
        selection(entries.drop_last(), f)
    }
}

fn entry_kept(f: &EntryFilter, e: &AuditEntry) -> (r: bool)
    ensures
        r == keeps(*f, *e),
{
    match f {
        EntryFilter::All => true,
        EntryFilter::Since(t) => e.timestamp >= *t,
        EntryFilter::Action(a) => {
            let name = a.as_str().to_owned();
            e.action == name
        },
        EntryFilter::User(u) => e.user == *u,
        EntryFilter::Failed => !e.success,
    }
}

/// The entries that `filter` keeps, in log order.
pub fn select_entries<'a>(entries: &'a [AuditEntry], filter: &EntryFilter) -> (r: Vec<&'a AuditEntry>)
    ensures
        r@.len() == selection(entries@, *filter).len(),
        forall|i: int| 0 <= i < r@.len() ==> *r@[i] == selection(entries@, *filter)[i],
{
    let mut r: Vec<&AuditEntry> = Vec::new();
    let n = entries.len();
    for i in 0..n
        invariant
            n == entries@.len(),
            r@.len() == selection(entries@.take(i as int), *filter).len(),
            forall|j: int| 0 <= j < r@.len() ==> *r@[j] == selection(entries@.take(i as int), *filter)[j],
    {
        assert(entries@.take(i + 1).drop_last() =~= entries@.take(i as int));
        if entry_kept(filter, &entries[i]) {
            r.push(&entries[i]);
        }
    }
    assert(entries@.take(n as int) =~= entries@);
    r
}

/// How many of `total` entries rotation archives so that `max_entries` stay:
/// none when the log is within the bound.
pub fn archived_count(total: usize, max_entries: usize) -> (r: usize)
    ensures
        r == if total <= max_entries { 0 } else { total - max_entries },
{
    if total <= max_entries {
        0
    } else {
        total - max_entries
    }
}

/// Where the audit log is kept.
pub struct AuditLogger {
    log_file: String,
}

impl AuditLogger {
    /// A logger writing to the file at `path`.
    pub fn with_file(path: String) -> (r: Self)
        ensures
            r.spec_log_file() == path@,
    {
        AuditLogger { log_file: path }
    }

    pub closed spec fn spec_log_file(&self) -> Seq<char> {
        self.log_file@
    }

    /// The path of the log file.
    pub fn log_file(&self) -> (r: &str)
        ensures
            r@ == self.spec_log_file(),
    {
        self.log_file.as_str()
    }
}

} // verus!
