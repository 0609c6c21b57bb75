use s1bcr4ft_core::audit::AuditAction;
use s1bcr4ft_core::package::{PackageError, PackageHelper, PackageManager, SyncOptions};
use s1bcr4ft_core::presets::SecurityPresets;
use s1bcr4ft_core::VERSION;

fn names(list: &[&str]) -> Vec<String> {
    list.iter().map(|s| s.to_string()).collect()
}

#[test]
fn test_version() {
    assert!(!VERSION.is_empty());
}

#[test]
fn test_sync_options() {
    let options = SyncOptions {
        dry_run: true,
        force: false,
        parallel: true,
    };
    assert!(options.dry_run);
}

#[test]
fn test_sync_report_generation() {
    let manager = PackageManager::with_helper(PackageHelper::Pacman);

    let options = SyncOptions {
        dry_run: true,
        force: false,
        parallel: true,
    };

    let report = manager
        .sync(
            &["vim".to_string(), "git".to_string()],
            &[],
            &["echo test".to_string()],
            &options,
            &[],
            &[],
            &[],
            0,
        )
        .expect("Sync failed");

    assert!(!report.packages_installed.is_empty());
    assert!(report.packages_failed.is_empty());
    assert!(!report.commands_executed.is_empty());
}

#[test]
fn helper_names_and_aur_support() {
    assert_eq!(PackageHelper::Pacman.command(), "pacman");
    assert_eq!(PackageHelper::Paru.command(), "paru");
    assert_eq!(PackageHelper::Yay.command(), "yay");
    assert!(!PackageHelper::Pacman.can_install_aur());
    assert!(PackageHelper::Paru.can_install_aur());
    assert!(PackageHelper::Yay.can_install_aur());
}

#[test]
fn parallel_installs_run_in_batches_of_five() {
    let manager = PackageManager::with_helper(PackageHelper::Pacman);
    let options = SyncOptions { dry_run: false, force: false, parallel: true };
    let packages = names(&["a", "b", "c", "d", "e", "f", "g"]);
    let batches = manager.package_batches(&packages, &options);
    assert_eq!(batches, vec![names(&["a", "b", "c", "d", "e"]), names(&["f", "g"])]);
    let installed = manager.install_packages(&packages, &options, &[false, true]);
    assert_eq!(installed, names(&["f", "g"]));
}

#[test]
fn sequential_installs_run_one_by_one() {
    let manager = PackageManager::with_helper(PackageHelper::Pacman);
    let options = SyncOptions { dry_run: false, force: true, parallel: false };
    let packages = names(&["a", "b", "c"]);
    let batches = manager.package_batches(&packages, &options);
    assert_eq!(batches, vec![names(&["a"]), names(&["b"]), names(&["c"])]);
    let installed = manager.install_packages(&packages, &options, &[true, false, true]);
    assert_eq!(installed, names(&["a", "c"]));
    let single = SyncOptions { dry_run: false, force: false, parallel: true };
    assert_eq!(manager.package_batches(&names(&["x"]), &single), vec![names(&["x"])]);
}

#[test]
fn install_arguments() {
    let plain = SyncOptions { dry_run: false, force: false, parallel: false };
    let forced = SyncOptions { dry_run: false, force: true, parallel: false };
    assert_eq!(PackageManager::install_args(&plain, false), names(&["-S", "--noconfirm", "--needed"]));
    assert_eq!(PackageManager::install_args(&forced, false), names(&["-S", "--noconfirm"]));
    assert_eq!(PackageManager::install_args(&forced, true), names(&["-S", "--noconfirm", "--needed"]));
}

#[test]
fn aur_needs_a_capable_helper() {
    let options = SyncOptions { dry_run: true, force: false, parallel: false };
    let pacman = PackageManager::with_helper(PackageHelper::Pacman);
    assert_eq!(
        pacman.install_aur_packages(&names(&["sliver"]), &options, &[]),
        Err(PackageError::AurHelperMissing)
    );
    assert_eq!(pacman.install_aur_packages(&[], &options, &[]), Ok(Vec::new()));
    let paru = PackageManager::with_helper(PackageHelper::Paru);
    assert_eq!(paru.install_aur_packages(&names(&["sliver"]), &options, &[]), Ok(names(&["sliver"])));
    let live = SyncOptions { dry_run: false, force: false, parallel: true };
    assert_eq!(paru.aur_batches(&names(&["p", "q"]), &live), vec![names(&["p"]), names(&["q"])]);
    assert_eq!(
        paru.install_aur_packages(&names(&["p", "q"]), &live, &[false, true]),
        Ok(names(&["q"]))
    );
}

#[test]
fn sync_counts_successful_runs() {
    let manager = PackageManager::with_helper(PackageHelper::Yay);
    let options = SyncOptions { dry_run: false, force: false, parallel: false };
    let report = manager
        .sync(
            &names(&["vim", "git"]),
            &names(&["sliver"]),
            &names(&["one", "two"]),
            &options,
            &[true, false],
            &[true],
            &[false, true],
            7,
        )
        .unwrap();
    assert_eq!(report.packages_installed, names(&["vim", "sliver"]));
    assert!(report.packages_failed.is_empty());
    assert_eq!(report.commands_executed, names(&["two"]));
    assert_eq!(report.duration_secs, 7);
    let pacman = PackageManager::with_helper(PackageHelper::Pacman);
    assert!(pacman.sync(&[], &names(&["sliver"]), &[], &options, &[], &[], &[], 0).is_err());
}

#[test]
fn audit_action_names() {
    assert_eq!(AuditAction::Sync.as_str(), "sync");
    assert_eq!(AuditAction::ConfigChange.as_str(), "config_change");
    assert_eq!(AuditAction::ModuleRemove.as_str(), "module_remove");
}

#[test]
fn security_presets() {
    let kernel = SecurityPresets::kernel_hardening();
    assert_eq!(kernel.len(), 5);
    assert_eq!(kernel[0], ("kernel.kptr_restrict", "2"));
    assert_eq!(kernel[4], ("net.ipv4.conf.default.rp_filter", "1"));
    assert_eq!(
        SecurityPresets::apparmor_profiles(),
        vec!["/etc/apparmor.d/usr.bin.firefox", "/etc/apparmor.d/usr.bin.chromium"]
    );
}

#[test]
fn test_dry_run_mode() {
    let options = SyncOptions {
        dry_run: true,
        force: false,
        parallel: false,
    };
    let manager = PackageManager::with_helper(PackageHelper::Pacman);
    assert!(manager.package_batches(&names(&["vim", "git"]), &options).is_empty());
    let installed = manager.install_packages(&["vim".to_string(), "git".to_string()], &options, &[]);
    assert_eq!(installed.len(), 2);
}
