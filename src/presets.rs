use vstd::prelude::*;

verus! {

/// Hardening settings that security modules apply.
pub struct SecurityPresets;

/// Kernel parameters and the values that harden them.
pub open spec fn kernel_hardening_spec() -> Seq<(Seq<char>, Seq<char>)> {
    seq![
        ("kernel.kptr_restrict"@, "2"@),
        ("kernel.dmesg_restrict"@, "1"@),
        ("kernel.unprivileged_bpf_disabled"@, "1"@),
        ("net.ipv4.conf.all.rp_filter"@, "1"@),
        ("net.ipv4.conf.default.rp_filter"@, "1"@),
    ]
}

/// AppArmor profiles to enforce.
pub open spec fn apparmor_profiles_spec() -> Seq<Seq<char>> {
    seq!["/etc/apparmor.d/usr.bin.firefox"@, "/etc/apparmor.d/usr.bin.chromium"@]
}

impl SecurityPresets {
    /// The sysctl settings of kernel hardening, as (key, value) pairs.
    pub fn kernel_hardening() -> (r: Vec<(&'static str, &'static str)>)
        ensures
            r@.len() == kernel_hardening_spec().len(),
            forall|i: int|
                0 <= i < r@.len() ==> (#[trigger] r@[i]).0@ == kernel_hardening_spec()[i].0 && r@[i].1@
                    == kernel_hardening_spec()[i].1,
    {
        let mut r: Vec<(&'static str, &'static str)> = Vec::new();
        r.push(("kernel.kptr_restrict", "2"));
        r.push(("kernel.dmesg_restrict", "1"));
        r.push(("kernel.unprivileged_bpf_disabled", "1"));
        r.push(("net.ipv4.conf.all.rp_filter", "1"));
        r.push(("net.ipv4.conf.default.rp_filter", "1"));
        r
    }

    /// The AppArmor profiles to enforce.
    pub fn apparmor_profiles() -> (r: Vec<&'static str>)
        ensures
            r@.len() == apparmor_profiles_spec().len(),
            forall|i: int| 0 <= i < r@.len() ==> (#[trigger] r@[i])@ == apparmor_profiles_spec()[i],
    {
        let mut r: Vec<&'static str> = Vec::new();
        r.push("/etc/apparmor.d/usr.bin.firefox");
        r.push("/etc/apparmor.d/usr.bin.chromium");
        r
    }
}

} // verus!
