use vstd::prelude::*;
use crate::command_validator::strings_view;

verus! {

/// How a sync runs.
#[derive(Debug, Clone, Copy)]
pub struct SyncOptions {
    /// Report what would be installed or run, and run nothing.
    pub dry_run: bool,
    /// Reinstall packages that are already present.
    pub force: bool,
    /// Install official packages in batches rather than one by one.
    pub parallel: bool,
}

/// What a sync did.
#[derive(Debug, Clone)]
pub struct SyncReport {
    pub packages_installed: Vec<String>,
    pub packages_failed: Vec<String>,
    pub commands_executed: Vec<String>,
    pub duration_secs: u64,
}

/// The program that installs packages.
#[derive(Debug, Clone, Copy, PartialEq, Eq, Structural)]
pub enum PackageHelper {
    Pacman,
    Paru,
    Yay,
}

/// Why packages cannot be installed.
#[derive(Debug, Clone, Copy, PartialEq, Eq, Structural)]
pub enum PackageError {
    /// AUR packages were asked for, and the helper is plain pacman.
    AurHelperMissing,
}

pub open spec fn spec_command(h: PackageHelper) -> Seq<char> {
    match h {
        PackageHelper::Pacman => "pacman"@,
        PackageHelper::Paru => "paru"@,
        PackageHelper::Yay => "yay"@,
    }
}

pub open spec fn spec_can_install_aur(h: PackageHelper) -> bool {
    h is Paru || h is Yay
}

impl PackageHelper {
    /// The name of the helper's executable.
    pub fn command(&self) -> (r: &'static str)
        ensures
            r@ == spec_command(*self),
    {
        match self {
            PackageHelper::Pacman => "pacman",
            PackageHelper::Paru => "paru",
            PackageHelper::Yay => "yay",
        }
    }

    /// Whether the helper installs from the AUR.
    pub fn can_install_aur(&self) -> (r: bool)
        ensures
            r == spec_can_install_aur(*self),
    {
        match self {
            PackageHelper::Pacman => false,
            PackageHelper::Paru => true,
            PackageHelper::Yay => true,
        }
    }
}

/// How many packages one helper run installs in parallel mode.
pub const BATCH_SIZE: usize = 5;

/// `s` cut into runs of `BATCH_SIZE`, the last one possibly shorter.
pub open spec fn chunks(s: Seq<Seq<char>>) -> Seq<Seq<Seq<char>>>
    decreases s.len(),
{
    if s.len() == 0 {
        Seq::empty()
    } else if s.len() <= BATCH_SIZE {
        seq![s]
    } else {
        seq![s.take(BATCH_SIZE as int)] + chunks(s.skip(BATCH_SIZE as int))
    }
}

/// Each element of `s` on its own.
pub open spec fn singletons(s: Seq<Seq<char>>) -> Seq<Seq<Seq<char>>> {
    Seq::new(s.len(), |i: int| seq![s[i]])
}

/// The helper runs that installing official packages takes: none for an empty
/// list or a dry run; batches in parallel mode with more than one package; else
/// one run per package.
pub open spec fn package_batches_spec(packages: Seq<Seq<char>>, options: SyncOptions) -> Seq<
    Seq<Seq<char>>,
> {
    if packages.len() == 0 || options.dry_run {
        Seq::empty()
    } else if options.parallel && packages.len() > 1 {
        chunks(packages)
    } else {
        singletons(packages)
    }
}

/// The helper runs that installing AUR packages takes: one per package.
pub open spec fn aur_batches_spec(packages: Seq<Seq<char>>, options: SyncOptions) -> Seq<
    Seq<Seq<char>>,
> {
    if packages.len() == 0 || options.dry_run {
        Seq::empty()
    } else {
        singletons(packages)
    }
}

/// The packages of the runs that succeeded, in order.
pub open spec fn succeeded_packages(batches: Seq<Seq<Seq<char>>>, succeeded: Seq<bool>) -> Seq<
    Seq<char>,
>
    decreases batches.len(),
{
    if batches.len() == 0 {
        Seq::empty()
    } else {
        succeeded_packages(batches.drop_last(), succeeded.drop_last()) + if succeeded.last() {
            batches.last()
        } else {
            Seq::empty()
        }
    }
}

/// The official packages reported as installed.
pub open spec fn installed_spec(packages: Seq<Seq<char>>, options: SyncOptions, succeeded: Seq<bool>) -> Seq<
    Seq<char>,
> {
    if packages.len() == 0 {
        Seq::empty()
    } else if options.dry_run {
        packages
    } else {
        succeeded_packages(package_batches_spec(packages, options), succeeded)
    }
}

/// The AUR packages reported as installed, or why none can be.
pub open spec fn aur_installed_spec(
    h: PackageHelper,
    packages: Seq<Seq<char>>,
    options: SyncOptions,
    succeeded: Seq<bool>,
) -> Result<Seq<Seq<char>>, PackageError> {
    if packages.len() == 0 {
        Ok(Seq::empty())
    } else if !spec_can_install_aur(h) {
        Err(PackageError::AurHelperMissing)
    } else if options.dry_run {
        Ok(packages)
    } else {
        Ok(succeeded_packages(aur_batches_spec(packages, options), succeeded))
    }
}

/// The elements of `s` whose flag is set, in order.
pub open spec fn kept(s: Seq<Seq<char>>, flags: Seq<bool>) -> Seq<Seq<char>>
    decreases s.len(),
{
    if s.len() == 0 {
        Seq::empty()
    } else if flags.last() {
        kept(s.drop_last(), flags.drop_last()).push(s.last())
    } else {
        kept(s.drop_last(), flags.drop_last())
    }
}

/// The mathematical content of a list of helper runs.
pub open spec fn batches_view(v: Seq<Vec<String>>) -> Seq<Seq<Seq<char>>> {
    v.map_values(|b: Vec<String>| strings_view(b@))
}

fn chunked(v: &[String]) -> (r: Vec<Vec<String>>)
    ensures
        batches_view(r@) == chunks(strings_view(v@)),
{
    let ghost s = strings_view(v@);
    let mut r: Vec<Vec<String>> = Vec::new();
    let n = v.len();
    let mut start: usize = 0;
    proof {
        assert(s.skip(0) =~= s);
        assert(batches_view(r@) =~= Seq::<Seq<Seq<char>>>::empty());
        assert(batches_view(r@) + chunks(s.skip(0)) =~= chunks(s));
    }
    while start < n
        invariant
            n == v@.len(),
            s == strings_view(v@),
            start <= n,
            chunks(s) == batches_view(r@) + chunks(s.skip(start as int)),
        decreases n - start,
    {
        let end = if n - start > BATCH_SIZE { start + BATCH_SIZE } else { n };
        let mut batch: Vec<String> = Vec::new();
        for i in start..end
            invariant
                n == v@.len(),
                s == strings_view(v@),
                start <= i <= end <= n,
                strings_view(batch@) == s.subrange(start as int, i as int),
        {
            let ghost before = batch@;
            let x = v[i].clone();
            assert(x@ == s[i as int]);
            batch.push(x);
            assert(strings_view(batch@) =~= strings_view(before).push(x@));
            assert(strings_view(batch@) =~= s.subrange(start as int, i + 1));
        }
        let ghost rest = s.skip(start as int);
        proof {
            if rest.len() <= BATCH_SIZE {
                assert(rest =~= s.subrange(start as int, end as int));
                assert(s.skip(end as int) =~= Seq::<Seq<char>>::empty());
            } else {
                assert(rest.take(BATCH_SIZE as int) =~= s.subrange(start as int, end as int));
                assert(rest.skip(BATCH_SIZE as int) =~= s.skip(end as int));
            }
        }
        let ghost old_r = r@;
        r.push(batch);
        proof {
            assert(batches_view(r@) =~= batches_view(old_r).push(strings_view(batch@)));
            if rest.len() <= BATCH_SIZE {
                assert(chunks(rest) == seq![rest]);
                assert(chunks(s.skip(end as int)) =~= Seq::<Seq<Seq<char>>>::empty());
            } else {
                assert(chunks(rest) == seq![rest.take(BATCH_SIZE as int)] + chunks(rest.skip(BATCH_SIZE as int)));
            }
            assert(chunks(s) =~= batches_view(r@) + chunks(s.skip(end as int)));
        }
        start = end;
    }
    proof {
        assert(s.skip(n as int) =~= Seq::<Seq<char>>::empty());
        assert(batches_view(r@) + chunks(s.skip(n as int)) =~= batches_view(r@));
    }
    r
}

fn singles(v: &[String]) -> (r: Vec<Vec<String>>)
    ensures
        batches_view(r@) == singletons(strings_view(v@)),
{
    let ghost s = strings_view(v@);
    let mut r: Vec<Vec<String>> = Vec::new();
    for i in 0..v.len()
        invariant
            s == strings_view(v@),
            batches_view(r@) == singletons(s).take(i as int),
    {
        let mut batch: Vec<String> = Vec::new();
        let x = v[i].clone();
        assert(x@ == s[i as int]);
        batch.push(x);
        assert(strings_view(batch@) =~= seq![s[i as int]]);
        let ghost old_r = r@;
        r.push(batch);
        assert(batches_view(r@) =~= batches_view(old_r).push(strings_view(batch@)));
        assert(batches_view(r@) =~= singletons(s).take(i + 1));
    }
    assert(singletons(s).take(v@.len() as int) =~= singletons(s));
    r
}

fn collect_succeeded(batches: &Vec<Vec<String>>, succeeded: &[bool]) -> (r: Vec<String>)
    requires
        succeeded@.len() == batches@.len(),
    ensures
        strings_view(r@) == succeeded_packages(batches_view(batches@), succeeded@),
{
    let ghost bs = batches_view(batches@);
    let mut r: Vec<String> = Vec::new();
    for i in 0..batches.len()
        invariant
            bs == batches_view(batches@),
            succeeded@.len() == batches@.len(),
            strings_view(r@) == succeeded_packages(bs.take(i as int), succeeded@.take(i as int)),
    {
        proof {
            assert(bs.take(i + 1).drop_last() =~= bs.take(i as int));
            assert(succeeded@.take(i + 1).drop_last() =~= succeeded@.take(i as int));
        }
        if succeeded[i] {
            append_strings(&mut r, &batches[i]);
        } else {
            assert(strings_view(r@) + Seq::<Seq<char>>::empty() =~= strings_view(r@));
        }
    }
    proof {
        assert(bs.take(batches@.len() as int) =~= bs);
        assert(succeeded@.take(batches@.len() as int) =~= succeeded@);
    }
    r
}

fn keep_flagged(v: &[String], flags: &[bool]) -> (r: Vec<String>)
    requires
        flags@.len() == v@.len(),
    ensures
        strings_view(r@) == kept(strings_view(v@), flags@),
{
    let ghost s = strings_view(v@);
    let mut r: Vec<String> = Vec::new();
    for i in 0..v.len()
        invariant
            s == strings_view(v@),
            flags@.len() == v@.len(),
            strings_view(r@) == kept(s.take(i as int), flags@.take(i as int)),
    {
        proof {
            assert(s.take(i + 1).drop_last() =~= s.take(i as int));
            assert(flags@.take(i + 1).drop_last() =~= flags@.take(i as int));
        }
        if flags[i] {
            let ghost before = r@;
            let x = v[i].clone();
            assert(x@ == s[i as int]);
            r.push(x);
            assert(strings_view(r@) =~= strings_view(before).push(x@));
        }
    }
    proof {
        assert(s.take(v@.len() as int) =~= s);
        assert(flags@.take(v@.len() as int) =~= flags@);
    }
    r
}

fn copy_strings(v: &[String]) -> (r: Vec<String>)
    ensures
        strings_view(r@) == strings_view(v@),
{
    let mut r: Vec<String> = Vec::new();
    for i in 0..v.len()
        invariant
            strings_view(r@) == strings_view(v@).take(i as int),
    {
        let ghost before = r@;
        let x = v[i].clone();
        assert(x@ == v@[i as int]@);
        r.push(x);
        assert(r@ == before.push(x));
        assert(strings_view(r@) =~= strings_view(before).push(x@));
        assert(strings_view(r@) =~= strings_view(v@).take(i + 1));
    }
    assert(strings_view(v@).take(v@.len() as int) =~= strings_view(v@));
    r
}

fn append_strings(dst: &mut Vec<String>, src: &Vec<String>)
    ensures
        strings_view(final(dst)@) == strings_view(old(dst)@) + strings_view(src@),
{
    let ghost start = strings_view(dst@);
    for i in 0..src.len()
        invariant
            strings_view(dst@) == start + strings_view(src@).take(i as int),
    {
        let ghost before = dst@;
        let x = src[i].clone();
        assert(x@ == src@[i as int]@);
        dst.push(x);
        assert(strings_view(dst@) =~= strings_view(before).push(x@));
        assert(strings_view(dst@) =~= start + strings_view(src@).take(i + 1));
    }
    assert(strings_view(src@).take(src@.len() as int) =~= strings_view(src@));
}

/// Installs packages through a helper.  The helper runs themselves happen
/// outside: this type says which runs to make and what their outcomes add up to.
pub struct PackageManager {
    helper: PackageHelper,
}

impl PackageManager {
    pub closed spec fn spec_helper(&self) -> PackageHelper {
        self.helper
    }

    /// A manager that installs through `helper`.
    pub fn with_helper(helper: PackageHelper) -> (r: Self)
        ensures
            r.spec_helper() == helper,
    {
        PackageManager { helper }
    }

    /// The helper the manager runs.
    pub fn helper(&self) -> (r: PackageHelper)
        ensures
            r == self.spec_helper(),
    {
        self.helper
    }

    /// The helper runs that installing official `packages` takes, each with the
    /// packages to name.
    pub fn package_batches(&self, packages: &[String], options: &SyncOptions) -> (r: Vec<Vec<String>>)
        ensures
            batches_view(r@) == package_batches_spec(strings_view(packages@), *options),
    {
        if packages.len() == 0 || options.dry_run {
            let r: Vec<Vec<String>> = Vec::new();
            assert(batches_view(r@) =~= Seq::<Seq<Seq<char>>>::empty());
            r
        } else if options.parallel && packages.len() > 1 {
            chunked(packages)
        } else {
            singles(packages)
        }
    }

    /// The helper runs that installing AUR `packages` takes: one per package.
    pub fn aur_batches(&self, packages: &[String], options: &SyncOptions) -> (r: Vec<Vec<String>>)
        ensures
            batches_view(r@) == aur_batches_spec(strings_view(packages@), *options),
    {
        if packages.len() == 0 || options.dry_run {
            let r: Vec<Vec<String>> = Vec::new();
            assert(batches_view(r@) =~= Seq::<Seq<Seq<char>>>::empty());
            r
        } else {
            singles(packages)
        }
    }

    /// The official packages installed, given whether each run of
    /// `package_batches` succeeded: all of them on a dry run.
    pub fn install_packages(&self, packages: &[String], options: &SyncOptions, succeeded: &[bool]) -> (r: Vec<
        String,
    >)
        requires
            succeeded@.len() == package_batches_spec(strings_view(packages@), *options).len(),
        ensures
            strings_view(r@) == installed_spec(strings_view(packages@), *options, succeeded@),
    {
        if packages.len() == 0 {
            let r: Vec<String> = Vec::new();
            assert(strings_view(r@) =~= Seq::<Seq<char>>::empty());
            return r;
        }
        if options.dry_run {
            return copy_strings(packages);
        }
        let batches = self.package_batches(packages, options);
        collect_succeeded(&batches, succeeded)
    }

    /// The AUR packages installed, given whether each run of `aur_batches`
    /// succeeded: all of them on a dry run.  Plain pacman cannot install them.
    pub fn install_aur_packages(&self, packages: &[String], options: &SyncOptions, succeeded: &[bool]) -> (r: Result<
        Vec<String>,
        PackageError,
    >)
        requires
            succeeded@.len() == aur_batches_spec(strings_view(packages@), *options).len(),
        ensures
            match aur_installed_spec(self.spec_helper(), strings_view(packages@), *options, succeeded@) {
                Ok(v) => r is Ok && strings_view(r->Ok_0@) == v,
                Err(e) => r == Err::<Vec<String>, PackageError>(e),
            },
    {
        if packages.len() == 0 {
            let r: Vec<String> = Vec::new();
            assert(strings_view(r@) =~= Seq::<Seq<char>>::empty());
            return Ok(r);
        }
        if !self.helper.can_install_aur() {
            return Err(PackageError::AurHelperMissing);
        }
        if options.dry_run {
            return Ok(copy_strings(packages));
        }
        let batches = self.aur_batches(packages, options);
        Ok(collect_succeeded(&batches, succeeded))
    }

    /// The report of a sync, given the outcome of each helper run and of each
    /// command: on a dry run every package and command counts as done.
    pub fn sync(
        &self,
        packages: &[String],
        aur_packages: &[String],
        commands: &[String],
        options: &SyncOptions,
        package_results: &[bool],
        aur_results: &[bool],
        command_results: &[bool],
        duration_secs: u64,
    ) -> (r: Result<SyncReport, PackageError>)
        requires
            package_results@.len() == package_batches_spec(strings_view(packages@), *options).len(),
            aur_results@.len() == aur_batches_spec(strings_view(aur_packages@), *options).len(),
            options.dry_run || command_results@.len() == commands@.len(),
        ensures
            match aur_installed_spec(
                self.spec_helper(),
                strings_view(aur_packages@),
                *options,
                aur_results@,
            ) {
                Ok(aur) => r matches Ok(report) && strings_view(report.packages_installed@)
                    == installed_spec(strings_view(packages@), *options, package_results@) + aur
                    && report.packages_failed@.len() == 0 && strings_view(
                    report.commands_executed@,
                ) == (if options.dry_run {
                    strings_view(commands@)
                } else {
                    kept(strings_view(commands@), command_results@)
                }) && report.duration_secs == duration_secs,
                Err(e) => r == Err::<SyncReport, PackageError>(e),
            },
    {
        let mut installed = self.install_packages(packages, options, package_results);
        let aur = self.install_aur_packages(aur_packages, options, aur_results)?;
        append_strings(&mut installed, &aur);
        let executed = if options.dry_run {
            copy_strings(commands)
        } else {
            keep_flagged(commands, command_results)
        };
        Ok(
            SyncReport {
                packages_installed: installed,
                packages_failed: Vec::new(),
                commands_executed: executed,
                duration_secs,
            },
        )
    }

    /// The helper's arguments before the package names: AUR installs and
    /// installs without `force` skip packages that are already present.
    pub fn install_args(options: &SyncOptions, aur: bool) -> (r: Vec<String>)
        ensures
            strings_view(r@) == if aur || !options.force {
                seq!["-S"@, "--noconfirm"@, "--needed"@]
            } else {
                seq!["-S"@, "--noconfirm"@]
            },
    {
        let mut r: Vec<String> = Vec::new();
        r.push("-S".to_owned());
        r.push("--noconfirm".to_owned());
        if aur || !options.force {
            r.push("--needed".to_owned());
        }
        proof {
            if aur || !options.force {
                assert(strings_view(r@) =~= seq!["-S"@, "--noconfirm"@, "--needed"@]);
            } else {
                assert(strings_view(r@) =~= seq!["-S"@, "--noconfirm"@]);
            }
        }
        r
    }
}

} // verus!
