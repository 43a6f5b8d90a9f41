//! Configuration files, global settings and the flattening of package
//! declarations.

use vstd::prelude::*;
use vstd::string::StringExecFns;

use crate::package::{dedup_packages, has_key, key_of, lemma_dedup_first_seen, Package, PackageList};
use crate::source::PackageSource;

verus! {

/// Global settings, read only from the root configuration file.
pub struct Config {
    /// Shell that backend commands run in.
    pub shell: String,
    /// Argument that makes the shell run the command string that follows it.
    pub shell_exec_arg: String,
    /// Backend used for packages that name none.
    pub default_source: PackageSource,
    /// Ask before applying at all.
    pub prompt_apply_continue: bool,
    /// Ask before installing through each backend.
    pub prompt_install_per_source: bool,
    /// Ask before removing through each backend.
    pub prompt_removal_per_source: bool,
    /// Remove what is installed but not declared.
    pub remove_unrequired_software: bool,
}

pub fn default_is_true() -> (r: bool)
    ensures
        r,
{
    true
}

pub fn default_shell() -> (r: String)
    ensures
        r@ == "bash"@,
{
    String::from_str("bash")
}

pub fn default_shell_exec_arg() -> (r: String)
    ensures
        r@ == "-c"@,
{
    String::from_str("-c")
}

impl Config {
    /// The settings in force when the root file gives none: every prompt
    /// and the removal pass enabled, bash with `-c`, Pacman by default.
    pub open spec fn is_default(&self) -> bool {
        &&& self.shell@ == "bash"@
        &&& self.shell_exec_arg@ == "-c"@
        &&& self.default_source == PackageSource::ArchPacman
        &&& self.prompt_apply_continue
        &&& self.prompt_install_per_source
        &&& self.prompt_removal_per_source
        &&& self.remove_unrequired_software
    }
}

impl Default for Config {
    fn default() -> (r: Self)
        ensures
            r.is_default(),
    {
        Config {
            shell: default_shell(),
            shell_exec_arg: default_shell_exec_arg(),
            default_source: PackageSource::default(),
            prompt_apply_continue: default_is_true(),
            prompt_install_per_source: default_is_true(),
            prompt_removal_per_source: default_is_true(),
            remove_unrequired_software: default_is_true(),
        }
    }
}

/// A write-once store of the global settings: the first value set stays.
pub struct GlobalConfig {
    cell: Option<Config>,
}

impl View for GlobalConfig {
    type V = Option<Config>;

    closed spec fn view(&self) -> Option<Config> {
        self.cell
    }
}

impl GlobalConfig {
    /// A store that holds no settings yet.
    pub fn new() -> (r: GlobalConfig)
        ensures
            r@ is None,
    {
        GlobalConfig { cell: None }
    }

    /// Stores `global_config` unless settings were stored before, in which
    /// case the earlier ones stay.
    pub fn set_config(&mut self, global_config: Config)
        ensures
            old(self)@ is Some ==> final(self)@ == old(self)@,
            old(self)@ is None ==> final(self)@ == Some(global_config),
    {
        if self.cell.is_none() {
            self.cell = Some(global_config);
        }
    }

    /// The stored settings.
    pub fn get_config(&self) -> (r: &Config)
        requires
            self@ is Some,
        ensures
            Some(*r) == self@,
    {
        self.cell.as_ref().unwrap()
    }

    /// Whether settings have been stored.
    pub fn is_initialised(&self) -> (r: bool)
        ensures
            r == self@ is Some,
    {
        self.cell.is_some()
    }
}

/// A link from one configuration file to another, relative to the directory
/// of the file that declares it.
pub struct ConfigLink {
    pub file: String,
}

/// Several packages from one backend, written as one entry.
pub struct MultiplePackage {
    /// Names of the packages.
    pub names: Vec<String>,
    /// Backend of every one of them.
    pub source: PackageSource,
}

/// The content of one configuration file.
pub struct Blueprint {
    /// Global settings; honoured only in the root file.
    pub config: Option<Config>,
    /// Links to further files.
    pub links: Vec<ConfigLink>,
    /// Packages declared one by one.
    pub packages: PackageList,
    /// Packages declared in groups; empty once the file is prepared.
    pub multi_packages: Vec<MultiplePackage>,
}

/// The resolved files other than the root.
pub struct BlueprintConfigs(pub Vec<Blueprint>);

/// Identities of a sequence of packages.
pub open spec fn keys(s: Seq<Package>) -> Seq<(Seq<char>, PackageSource)> {
    s.map_values(|p: Package| key_of(p))
}

/// The identities that a group stands for, one per name, in order.
pub open spec fn group_keys(g: MultiplePackage) -> Seq<(Seq<char>, PackageSource)> {
    g.names@.map_values(|n: String| (n@, g.source))
}

/// The identities that a list of groups stands for, group after group.
pub open spec fn expanded_keys(groups: Seq<MultiplePackage>) -> Seq<(Seq<char>, PackageSource)>
    decreases groups.len(),
{
    if groups.len() == 0 {
        seq![]
    } else {
        expanded_keys(groups.drop_last()) + group_keys(groups.last())
    }
}

/// All packages of a sequence of files, file after file.
pub open spec fn all_packages(files: Seq<Blueprint>) -> Seq<Package>
    decreases files.len(),
{
    if files.len() == 0 {
        seq![]
    } else {
        all_packages(files.drop_last()) + files.last().packages.0@
    }
}

impl MultiplePackage {
    /// One package per name, each with the group's backend.
    pub fn expand(&self) -> (r: Vec<Package>)
        ensures
            keys(r@) == group_keys(*self),
            forall|i: int| 0 <= i < r.len() ==> (#[trigger] r@[i]).src@ == Seq::<char>::empty(),
    {
        let mut r: Vec<Package> = Vec::new();
        let mut i: usize = 0;
        while i < self.names.len()
            invariant
                i <= self.names.len(),
                keys(r@) == group_keys(*self).take(i as int),
                forall|j: int| 0 <= j < r.len() ==> (#[trigger] r@[j]).src@ == Seq::<char>::empty(),
            decreases self.names.len() - i,
        {
            let p = Package::new(self.names[i].clone(), self.source);
            let ghost before = r@;
            r.push(p);
            proof {
                assert(r@ == before.push(p));
                assert(keys(r@) =~= keys(before).push(key_of(p)));
                assert(group_keys(*self).take(i + 1) =~= group_keys(*self).take(i as int).push(
                    (self.names@[i as int]@, self.source),
                ));
            }
            i = i + 1;
        }
        assert(group_keys(*self).take(i as int) =~= group_keys(*self));
        r
    }
}

impl Blueprint {
    /// Moves every group into the package list, one package per name, group
    /// after group in declaration order, and leaves no groups behind.
    pub fn expand_multi_packages(&mut self)
        ensures
            final(self).multi_packages.len() == 0,
            keys(final(self).packages.0@) == keys(old(self).packages.0@) + expanded_keys(
                old(self).multi_packages@,
            ),
            final(self).config == old(self).config,
            final(self).links == old(self).links,
    {
        let ghost start = self.packages.0@;
        let ghost groups = self.multi_packages@;
        let mut i: usize = 0;
        proof {
            assert(groups.take(0) =~= Seq::<MultiplePackage>::empty());
            assert(keys(start) + Seq::<(Seq<char>, PackageSource)>::empty() =~= keys(start));
        }
        while i < self.multi_packages.len()
            invariant
                i <= self.multi_packages.len(),
                self.multi_packages@ == groups,
                keys(self.packages.0@) == keys(start) + expanded_keys(groups.take(i as int)),
                self.config == old(self).config,
                self.links == old(self).links,
            decreases self.multi_packages.len() - i,
        {
            let ghost before = self.packages.0@;
            let mut expanded = self.multi_packages[i].expand();
            self.packages.0.append(&mut expanded);
            proof {
                let g = groups.take(i + 1);
                assert(g.drop_last() =~= groups.take(i as int));
                assert(g.last() == groups[i as int]);
                assert(keys(self.packages.0@) =~= keys(before) + group_keys(groups[i as int]));
                assert(keys(self.packages.0@) =~= keys(start) + expanded_keys(g));
            }
            i = i + 1;
        }
        self.multi_packages = Vec::new();
        assert(groups.take(i as int) =~= groups);
    }

    /// Records `path` as the declaring file of every package.
    pub fn stamp_packages(&mut self, path: &String)
        ensures
            keys(final(self).packages.0@) == keys(old(self).packages.0@),
            forall|i: int|
                0 <= i < final(self).packages.0.len() ==> (#[trigger] final(self).packages.0@[i]).src@
                    == path@,
            final(self).config == old(self).config,
            final(self).links == old(self).links,
            final(self).multi_packages == old(self).multi_packages,
    {
        let ghost start = self.packages.0@;
        let mut i: usize = 0;
        while i < self.packages.0.len()
            invariant
                i <= self.packages.0.len(),
                self.packages.0.len() == start.len(),
                forall|j: int| 0 <= j < start.len() ==> key_of(#[trigger] self.packages.0@[j]) == key_of(start[j]),
                forall|j: int| 0 <= j < i ==> (#[trigger] self.packages.0@[j]).src@ == path@,
                self.config == old(self).config,
                self.links == old(self).links,
                self.multi_packages == old(self).multi_packages,
            decreases self.packages.0.len() - i,
        {
            self.packages.0[i].add_source_debug_path(path);
            i = i + 1;
        }
        assert(keys(self.packages.0@) =~= keys(start));
    }

    /// Brings a freshly read file into its final shape: groups expanded into
    /// packages, and every package stamped with the file's canonical path.
    pub fn prepare(&mut self, path: &String)
        ensures
            final(self).multi_packages.len() == 0,
            keys(final(self).packages.0@) == keys(old(self).packages.0@) + expanded_keys(
                old(self).multi_packages@,
            ),
            forall|i: int|
                0 <= i < final(self).packages.0.len() ==> (#[trigger] final(self).packages.0@[i]).src@
                    == path@,
            final(self).config == old(self).config,
            final(self).links == old(self).links,
    {
        self.expand_multi_packages();
        self.stamp_packages(path);
    }
}

impl BlueprintConfigs {
    /// All packages of all files, file after file, in declaration order.
    pub fn flatten_data(self) -> (r: PackageList)
        ensures
            r.0@ == all_packages(self.0@),
    {
        let ghost files = self.0@;
        let mut rest = self.0;
        let mut result: Vec<Package> = Vec::new();
        let ghost mut k: int = 0;
        while rest.len() > 0
            invariant
                0 <= k <= files.len(),
                rest@ == files.subrange(k, files.len() as int),
                result@ == all_packages(files.take(k)),
            decreases rest.len(),
        {
            let mut file = rest.remove(0);
            proof {
                assert(files.take(k + 1).drop_last() =~= files.take(k));
                assert(files.take(k + 1).last() == file);
                k = k + 1;
                assert(rest@ =~= files.subrange(k, files.len() as int));
            }
            result.append(&mut file.packages.0);
        }
        assert(files.take(k) =~= files);
        PackageList(result)
    }
}

/// The package list of a resolved configuration: the root's packages, then
/// those of the other files, keeping the first package of each identity.
pub fn flatten(root: Blueprint, others: BlueprintConfigs) -> (r: PackageList)
    ensures
        r.0@ == dedup_packages(root.packages.0@ + all_packages(others.0@)),
{
    let mut list = root.packages;
    let mut rest = others.flatten_data();
    list.0.append(&mut rest.0);
    list.remove_duplicates()
}

/// A file whose only group is `g` gets exactly one package per name of the
/// group, in order, each with the group's backend.
pub proof fn lemma_single_group_expansion(g: MultiplePackage)
    ensures
        expanded_keys(seq![g]) == group_keys(g),
        group_keys(g).len() == g.names.len(),
        forall|i: int|
            0 <= i < g.names.len() ==> #[trigger] group_keys(g)[i] == (g.names@[i]@, g.source),
{
    let s = seq![g];
    assert(s.drop_last() =~= Seq::<MultiplePackage>::empty());
    assert(s.last() == g);
    assert(expanded_keys(s.drop_last()) == Seq::<(Seq<char>, PackageSource)>::empty());
    assert(expanded_keys(s) == group_keys(g) + expanded_keys(s.drop_last()));
    assert(group_keys(g) + Seq::<(Seq<char>, PackageSource)>::empty() =~= group_keys(g));
}

/// Whether some file of `files` declares a package with the identity `k`.
pub open spec fn declared_in(files: Seq<Blueprint>, k: (Seq<char>, PackageSource)) -> bool {
    exists|i: int| 0 <= i < files.len() && has_key(#[trigger] files[i].packages.0@, k)
}

proof fn lemma_all_packages_keys(files: Seq<Blueprint>, k: (Seq<char>, PackageSource))
    ensures
        has_key(all_packages(files), k) <==> declared_in(files, k),
    decreases files.len(),
{
    if files.len() > 0 {
        let init = files.drop_last();
        let last = files.last().packages.0@;
        let all = all_packages(files);
        lemma_all_packages_keys(init, k);
        assert(all == all_packages(init) + last);
        if has_key(all, k) {
            let j = choose|j: int| 0 <= j < all.len() && key_of(#[trigger] all[j]) == k;
            if j < all_packages(init).len() {
                assert(all_packages(init)[j] == all[j]);
                assert(has_key(all_packages(init), k));
                let i = choose|i: int| 0 <= i < init.len() && has_key(#[trigger] init[i].packages.0@, k);
                assert(init[i] == files[i]);
            } else {
                assert(last[j - all_packages(init).len()] == all[j]);
                assert(has_key(files[files.len() - 1].packages.0@, k));
            }
        }
        if declared_in(files, k) {
            let i = choose|i: int| 0 <= i < files.len() && has_key(#[trigger] files[i].packages.0@, k);
            let s = files[i].packages.0@;
            let j = choose|j: int| 0 <= j < s.len() && key_of(#[trigger] s[j]) == k;
            if i < init.len() {
                assert(init[i] == files[i]);
                assert(declared_in(init, k));
                let j2 = choose|j2: int|
                    0 <= j2 < all_packages(init).len() && key_of(#[trigger] all_packages(init)[j2]) == k;
                assert(all[j2] == all_packages(init)[j2]);
            } else {
                assert(all[all_packages(init).len() + j] == last[j]);
            }
        }
    }
}

/// Flattening a resolved configuration yields each identity declared by the
/// root or by any other file exactly once, and nothing else.
pub proof fn lemma_flatten_exact(root: Blueprint, others: BlueprintConfigs)
    ensures
        ({
            let r = dedup_packages(root.packages.0@ + all_packages(others.0@));
            &&& forall|i: int, j: int| 0 <= i < j < r.len() ==> key_of(r[i]) != key_of(r[j])
            &&& forall|k: (Seq<char>, PackageSource)|
                has_key(r, k) <==> (has_key(root.packages.0@, k) || declared_in(others.0@, k))
        }),
{
    let a = root.packages.0@;
    let b = all_packages(others.0@);
    let s = a + b;
    lemma_dedup_first_seen(s);
    assert forall|k: (Seq<char>, PackageSource)| has_key(s, k) <==> (has_key(a, k) || has_key(b, k)) by {
        if has_key(s, k) {
            let j = choose|j: int| 0 <= j < s.len() && key_of(#[trigger] s[j]) == k;
            if j < a.len() {
                assert(a[j] == s[j]);
            } else {
                assert(b[j - a.len()] == s[j]);
            }
        }
        if has_key(a, k) {
            let j = choose|j: int| 0 <= j < a.len() && key_of(#[trigger] a[j]) == k;
            assert(s[j] == a[j]);
        }
        if has_key(b, k) {
            let j = choose|j: int| 0 <= j < b.len() && key_of(#[trigger] b[j]) == k;
            assert(s[a.len() + j] == b[j]);
        }
    }
    assert forall|k: (Seq<char>, PackageSource)|
        has_key(dedup_packages(s), k) <==> (has_key(a, k) || declared_in(others.0@, k)) by {
        lemma_all_packages_keys(others.0@, k);
    }
}

} // verus!
