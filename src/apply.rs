//! The reconciliation engine.
//!
//! Packages are grouped by backend. Then every backend installs its batch,
//! and only after all of them are done or skipped does any backend remove
//! what is not declared. Confirmations and backend commands are performed by
//! a driver: the engine tells it what to do next and is told what came of it.

use vstd::prelude::*;

use crate::config::Config;
use crate::error::BlueprintError;
use crate::package::{Package, PackageList};
use crate::resolve::views;
use crate::source::PackageSource;

verus! {

/// The names of the packages of one backend, in declaration order.
#[derive(Debug)]
pub struct SourceBatch {
    pub source: PackageSource,
    pub names: Vec<String>,
}

/// The backends of `s`, each once, in order of first appearance.
pub open spec fn sources_in_order(s: Seq<Package>) -> Seq<PackageSource>
    decreases s.len(),
{
    if s.len() == 0 {
        seq![]
    } else {
        let d = sources_in_order(s.drop_last());
        if d.contains(s.last().source) {
            d
        } else {
            d.push(s.last().source)
        }
    }
}

/// The names of the packages of `s` that come from `source`, in order.
pub open spec fn names_of(s: Seq<Package>, source: PackageSource) -> Seq<Seq<char>>
    decreases s.len(),
{
    if s.len() == 0 {
        seq![]
    } else {
        let n = names_of(s.drop_last(), source);
        if s.last().source == source {
            n.push(s.last().name@)
        } else {
            n
        }
    }
}

proof fn lemma_absent_source_has_no_names(s: Seq<Package>, source: PackageSource)
    requires
        !sources_in_order(s).contains(source),
    ensures
        names_of(s, source) == Seq::<Seq<char>>::empty(),
    decreases s.len(),
{
    if s.len() > 0 {
        let d = sources_in_order(s.drop_last());
        if d.contains(s.last().source) {
            lemma_absent_source_has_no_names(s.drop_last(), source);
        } else {
            assert(sources_in_order(s) == d.push(s.last().source));
            assert(d.push(s.last().source).last() == s.last().source);
            assert forall|x: PackageSource| d.contains(x) implies d.push(s.last().source).contains(x) by {
                let k = choose|k: int| 0 <= k < d.len() && d[k] == x;
                assert(d.push(s.last().source)[k] == x);
            }
            if s.last().source == source {
                assert(d.push(s.last().source)[d.len() as int] == source);
            }
            lemma_absent_source_has_no_names(s.drop_last(), source);
        }
    }
}

proof fn lemma_sources_distinct(s: Seq<Package>)
    ensures
        sources_in_order(s).no_duplicates(),
    decreases s.len(),
{
    if s.len() > 0 {
        lemma_sources_distinct(s.drop_last());
        let d = sources_in_order(s.drop_last());
        if !d.contains(s.last().source) {
            let e = d.push(s.last().source);
            assert forall|a: int, b: int| 0 <= a < b < e.len() implies e[a] != e[b] by {
                if b == d.len() {
                    assert(d.contains(d[a]));
                }
            }
        }
    }
}

/// Position of the batch of `source` in `batches`, if there is one.
fn find_batch(batches: &Vec<SourceBatch>, source: PackageSource) -> (r: Option<usize>)
    ensures
        r matches Some(j) ==> j < batches.len() && batches@[j as int].source == source,
        r is None ==> forall|j: int| 0 <= j < batches.len() ==> (#[trigger] batches@[j]).source != source,
{
    let mut j: usize = 0;
    while j < batches.len()
        invariant
            j <= batches.len(),
            forall|k: int| 0 <= k < j ==> (#[trigger] batches@[k]).source != source,
        decreases batches.len() - j,
    {
        if batches[j].source == source {
            return Some(j);
        }
        j = j + 1;
    }
    None
}

/// Splits the list into one batch per backend that occurs in it, backends
/// in order of first appearance, names in the order of the list.
pub fn group_by_source(list: PackageList) -> (r: Vec<SourceBatch>)
    ensures
        r.len() == sources_in_order(list.0@).len(),
        forall|i: int|
            0 <= i < r.len() ==> (#[trigger] r@[i]).source == sources_in_order(list.0@)[i]
                && views(r@[i].names@) == names_of(list.0@, r@[i].source),
{
    let ghost orig = list.0@;
    let mut rest = list.0;
    let mut batches: Vec<SourceBatch> = Vec::new();
    let ghost mut k: int = 0;
    while rest.len() > 0
        invariant
            0 <= k <= orig.len(),
            rest@ == orig.subrange(k, orig.len() as int),
            batches.len() == sources_in_order(orig.take(k)).len(),
            forall|i: int|
                0 <= i < batches.len() ==> (#[trigger] batches@[i]).source == sources_in_order(
                    orig.take(k),
                )[i] && views(batches@[i].names@) == names_of(orig.take(k), batches@[i].source),
        decreases rest.len(),
    {
        let p = rest.remove(0);
        let ghost prev = orig.take(k);
        let ghost next = orig.take(k + 1);
        let ghost old_batches = batches@;
        proof {
            assert(next.drop_last() =~= prev);
            assert(next.last() == p);
            k = k + 1;
            assert(rest@ =~= orig.subrange(k, orig.len() as int));
        }
        let source = p.source;
        match find_batch(&batches, source) {
            Some(j) => {
                batches[j].names.push(p.name);
                proof {
                    assert(sources_in_order(prev).contains(source)) by {
                        assert(sources_in_order(prev)[j as int] == source);
                    }
                    assert(sources_in_order(next) == sources_in_order(prev));
                    lemma_sources_distinct(prev);
                    assert forall|i: int| 0 <= i < batches.len() implies (#[trigger] batches@[i]).source
                        == sources_in_order(next)[i] && views(batches@[i].names@) == names_of(
                        next,
                        batches@[i].source,
                    ) by {
                        if i == j {
                            assert(batches@[i].source == source);
                            assert(names_of(next, source) == names_of(prev, source).push(p.name@));
                            assert(views(batches@[i].names@) =~= views(old_batches[i].names@).push(
                                p.name@,
                            ));
                        } else {
                            assert(batches@[i] == old_batches[i]);
                            assert(sources_in_order(prev)[i] != sources_in_order(prev)[j as int]);
                            assert(names_of(next, batches@[i].source) == names_of(prev, batches@[i].source));
                        }
                    }
                }
            },
            None => {
                let mut names: Vec<String> = Vec::new();
                names.push(p.name);
                batches.push(SourceBatch { source, names });
                proof {
                    let d = sources_in_order(prev);
                    assert(!d.contains(source)) by {
                        if d.contains(source) {
                            let i = choose|i: int| 0 <= i < d.len() && d[i] == source;
                            assert(old_batches[i].source == source);
                        }
                    }
                    assert(sources_in_order(next) == d.push(source));
                    lemma_absent_source_has_no_names(prev, source);
                    assert forall|i: int| 0 <= i < batches.len() implies (#[trigger] batches@[i]).source
                        == sources_in_order(next)[i] && views(batches@[i].names@) == names_of(
                        next,
                        batches@[i].source,
                    ) by {
                        if i == old_batches.len() {
                            assert(views(batches@[i].names@) =~= seq![p.name@]);
                            assert(names_of(next, source) =~= Seq::<Seq<char>>::empty().push(
                                p.name@,
                            ));
                        } else {
                            assert(batches@[i] == old_batches[i]);
                            assert(old_batches[i].source != source);
                        }
                    }
                }
            },
        }
    }
    proof {
        assert(orig.take(k) =~= orig);
    }
    batches
}

/// The settings that steer reconciliation.
#[derive(Clone, Copy, PartialEq, Eq, Structural, Debug)]
pub struct ApplySettings {
    pub prompt_apply_continue: bool,
    pub prompt_install_per_source: bool,
    pub prompt_removal_per_source: bool,
    pub remove_unrequired_software: bool,
}

/// The settings of a global configuration that steer reconciliation.
pub open spec fn settings_of(config: Config) -> ApplySettings {
    ApplySettings {
        prompt_apply_continue: config.prompt_apply_continue,
        prompt_install_per_source: config.prompt_install_per_source,
        prompt_removal_per_source: config.prompt_removal_per_source,
        remove_unrequired_software: config.remove_unrequired_software,
    }
}

impl ApplySettings {
    pub fn from_config(config: &Config) -> (r: ApplySettings)
        ensures
            r == settings_of(*config),
    {
        ApplySettings {
            prompt_apply_continue: config.prompt_apply_continue,
            prompt_install_per_source: config.prompt_install_per_source,
            prompt_removal_per_source: config.prompt_removal_per_source,
            remove_unrequired_software: config.remove_unrequired_software,
        }
    }
}

/// Where reconciliation stands. A group is the position of a batch.
#[derive(Clone, Copy, PartialEq, Eq, Structural, Debug)]
pub enum Stage {
    /// Waiting for the answer to the question whether to apply at all.
    ConfirmApply,
    /// Waiting for the answer whether to install the group.
    ConfirmInstall(usize),
    /// Waiting for the group's install command to end.
    Installing(usize),
    /// Waiting for the answer whether to remove through the group's backend.
    ConfirmRemoval(usize),
    /// Waiting for the group's removal to end.
    Removing(usize),
    /// Everything is done.
    Done,
    /// The user declined to apply.
    Declined,
    /// A backend failed.
    Failed,
}

/// What the driver reports back.
#[derive(Debug)]
pub enum Event {
    /// The user's answer to the question asked.
    Answer(bool),
    /// The backend command ended successfully.
    Succeeded,
    /// The backend command failed.
    Failed(BlueprintError),
}

/// What the driver is to do next.
#[derive(Debug)]
pub enum Action {
    AskApply { package_count: usize },
    AskInstall { group: usize },
    Install { group: usize },
    AskRemoval { group: usize },
    Remove { group: usize },
    /// Reconciliation is complete.
    Finish,
    /// Reconciliation ends with this error.
    Stop(BlueprintError),
}

/// A backend operation as the record of a run holds it.
#[derive(Clone, Copy, PartialEq, Eq, Structural, Debug)]
pub enum Call {
    /// The group's install was started and has not ended successfully.
    InstallStarted(usize),
    /// The group's install ended successfully.
    Installed(usize),
    /// The user declined the group's install.
    InstallSkipped(usize),
    /// The group's removal was started and has not ended successfully.
    RemovalStarted(usize),
    /// The group's removal ended successfully.
    Removed(usize),
    /// The user declined the group's removal.
    RemovalSkipped(usize),
}

/// The stage at which the removal pass goes on with group `i`.
pub open spec fn removal_entry(s: ApplySettings, n: int, i: int) -> Stage {
    if !s.remove_unrequired_software || i >= n {
        Stage::Done
    } else if s.prompt_removal_per_source {
        Stage::ConfirmRemoval(i as usize)
    } else {
        Stage::Removing(i as usize)
    }
}

/// The stage at which the install pass goes on with group `i`; past the
/// last group the removal pass begins.
pub open spec fn install_entry(s: ApplySettings, n: int, i: int) -> Stage {
    if i >= n {
        removal_entry(s, n, 0)
    } else if s.prompt_install_per_source {
        Stage::ConfirmInstall(i as usize)
    } else {
        Stage::Installing(i as usize)
    }
}

pub open spec fn initial_stage(s: ApplySettings, n: int) -> Stage {
    if s.prompt_apply_continue {
        Stage::ConfirmApply
    } else {
        install_entry(s, n, 0)
    }
}

/// Whether `ev` is a report that the stage waits for.
pub open spec fn expects(stage: Stage, ev: Event) -> bool {
    match stage {
        Stage::ConfirmApply | Stage::ConfirmInstall(_) | Stage::ConfirmRemoval(_) => ev is Answer,
        Stage::Installing(_) | Stage::Removing(_) => ev is Succeeded || ev is Failed,
        _ => false,
    }
}

pub open spec fn next_stage(s: ApplySettings, n: int, stage: Stage, ev: Event) -> Stage {
    match stage {
        Stage::ConfirmApply => if ev == Event::Answer(true) {
            install_entry(s, n, 0)
        } else {
            Stage::Declined
        },
        Stage::ConfirmInstall(i) => if ev == Event::Answer(true) {
            Stage::Installing(i)
        } else {
            install_entry(s, n, i + 1)
        },
        Stage::Installing(i) => if ev is Succeeded {
            install_entry(s, n, i + 1)
        } else {
            Stage::Failed
        },
        Stage::ConfirmRemoval(i) => if ev == Event::Answer(true) {
            Stage::Removing(i)
        } else {
            removal_entry(s, n, i + 1)
        },
        Stage::Removing(i) => if ev is Succeeded {
            removal_entry(s, n, i + 1)
        } else {
            Stage::Failed
        },
        _ => stage,
    }
}

/// The backend operation that entering a stage starts.
pub open spec fn entry_calls(stage: Stage) -> Seq<Call> {
    match stage {
        Stage::Installing(i) => seq![Call::InstallStarted(i)],
        Stage::Removing(i) => seq![Call::RemovalStarted(i)],
        _ => seq![],
    }
}

/// The record after the report `ev` at `stage`: a declined question adds a
/// skip, and a success marks the operation that was running as ended.
pub open spec fn settle(h: Seq<Call>, stage: Stage, ev: Event) -> Seq<Call> {
    match stage {
        Stage::ConfirmInstall(i) => if ev == Event::Answer(false) {
            h.push(Call::InstallSkipped(i))
        } else {
            h
        },
        Stage::ConfirmRemoval(i) => if ev == Event::Answer(false) {
            h.push(Call::RemovalSkipped(i))
        } else {
            h
        },
        Stage::Installing(i) => if ev is Succeeded {
            h.update(h.len() - 1, Call::Installed(i))
        } else {
            h
        },
        Stage::Removing(i) => if ev is Succeeded {
            h.update(h.len() - 1, Call::Removed(i))
        } else {
            h
        },
        _ => h,
    }
}

/// What the driver is asked to do at a stage; at `Failed` it is given the
/// backend's error instead.
pub open spec fn action_of(stage: Stage, package_count: usize) -> Action {
    match stage {
        Stage::ConfirmApply => Action::AskApply { package_count },
        Stage::ConfirmInstall(i) => Action::AskInstall { group: i },
        Stage::Installing(i) => Action::Install { group: i },
        Stage::ConfirmRemoval(i) => Action::AskRemoval { group: i },
        Stage::Removing(i) => Action::Remove { group: i },
        Stage::Done => Action::Finish,
        _ => Action::Stop(BlueprintError::UserAborted),
    }
}

/// The install of group `g` has ended successfully or was declined.
pub open spec fn settles_install(c: Call, g: int) -> bool {
    c == Call::Installed(g as usize) || c == Call::InstallSkipped(g as usize)
}

/// The removal of group `g` has ended successfully or was declined.
pub open spec fn settles_removal(c: Call, g: int) -> bool {
    c == Call::Removed(g as usize) || c == Call::RemovalSkipped(g as usize)
}

pub open spec fn is_removal_call(c: Call) -> bool {
    c is RemovalStarted || c is Removed || c is RemovalSkipped
}

/// The first `k` records settle the installs of groups `0..k`, in order.
pub open spec fn install_records(h: Seq<Call>, k: int) -> bool {
    forall|g: int| 0 <= g < k ==> settles_install(#[trigger] h[g], g)
}

/// The records `n..n + k` settle the removals of groups `0..k`, in order.
pub open spec fn removal_records(h: Seq<Call>, n: int, k: int) -> bool {
    forall|j: int| n <= j < n + k ==> settles_removal(#[trigger] h[j], j - n)
}

/// The record of a run that stopped at a failure: settled operations in
/// order, the last of them possibly the one that failed.
pub open spec fn failed_record(h: Seq<Call>, n: int) -> bool {
    &&& h.len() <= 2 * n
    &&& forall|j: int|
        0 <= j < h.len() ==> if j < n {
            settles_install(#[trigger] h[j], j) || (j == h.len() - 1 && h[j] == Call::InstallStarted(
                j as usize,
            ))
        } else {
            settles_removal(h[j], j - n) || (j == h.len() - 1 && h[j] == Call::RemovalStarted(
                (j - n) as usize,
            ))
        }
}

/// How the record of backend operations matches the stage reached.
pub open spec fn stage_wf(s: ApplySettings, n: int, stage: Stage, h: Seq<Call>) -> bool {
    match stage {
        Stage::ConfirmApply => s.prompt_apply_continue && h.len() == 0,
        Stage::Declined => h.len() == 0,
        Stage::ConfirmInstall(i) => s.prompt_install_per_source && i < n && h.len() == i
            && install_records(h, i as int),
        Stage::Installing(i) => i < n && h.len() == i + 1 && install_records(h, i as int) && h[i as int]
            == Call::InstallStarted(i),
        Stage::ConfirmRemoval(i) => s.remove_unrequired_software && s.prompt_removal_per_source && i
            < n && h.len() == n + i && install_records(h, n) && removal_records(h, n, i as int),
        Stage::Removing(i) => s.remove_unrequired_software && i < n && h.len() == n + i + 1
            && install_records(h, n) && removal_records(h, n, i as int) && h[n + i]
            == Call::RemovalStarted(i),
        Stage::Done => install_records(h, n) && if s.remove_unrequired_software {
            h.len() == 2 * n && removal_records(h, n, n)
        } else {
            h.len() == n
        },
        Stage::Failed => failed_record(h, n),
    }
}

proof fn lemma_removal_entry(s: ApplySettings, n: int, h: Seq<Call>, i: int)
    requires
        0 <= i <= n <= usize::MAX,
        h.len() == n + i,
        install_records(h, n),
        removal_records(h, n, i),
        !s.remove_unrequired_software ==> i == 0,
    ensures
        stage_wf(s, n, removal_entry(s, n, i), h + entry_calls(removal_entry(s, n, i))),
{
    let st = removal_entry(s, n, i);
    let h2 = h + entry_calls(st);
    if st is Removing {
        assert(h2 == h.push(Call::RemovalStarted(i as usize)));
        assert forall|g: int| 0 <= g < n implies settles_install(#[trigger] h2[g], g) by {
            assert(h2[g] == h[g]);
        }
        assert forall|j: int| n <= j < n + i implies settles_removal(#[trigger] h2[j], j - n) by {
            assert(h2[j] == h[j]);
        }
    } else {
        assert(h2 =~= h);
    }
}

proof fn lemma_install_entry(s: ApplySettings, n: int, h: Seq<Call>, i: int)
    requires
        0 <= i <= n <= usize::MAX,
        h.len() == i,
        install_records(h, i),
    ensures
        stage_wf(s, n, install_entry(s, n, i), h + entry_calls(install_entry(s, n, i))),
{
    let st = install_entry(s, n, i);
    let h2 = h + entry_calls(st);
    if i >= n {
        lemma_removal_entry(s, n, h, 0);
    } else if st is Installing {
        assert(h2 == h.push(Call::InstallStarted(i as usize)));
        assert forall|g: int| 0 <= g < i implies settles_install(#[trigger] h2[g], g) by {
            assert(h2[g] == h[g]);
        }
    } else {
        assert(h2 =~= h);
    }
}

/// The state of one reconciliation: the batches, the settings, the stage
/// reached, and the record of the backend operations started or skipped.
pub struct Reconciler {
    batches: Vec<SourceBatch>,
    package_count: usize,
    settings: ApplySettings,
    stage: Stage,
    calls: Ghost<Seq<Call>>,
}

impl Reconciler {
    pub closed spec fn batches(&self) -> Seq<SourceBatch> {
        self.batches@
    }

    pub closed spec fn spec_package_count(&self) -> usize {
        self.package_count
    }

    pub closed spec fn settings(&self) -> ApplySettings {
        self.settings
    }

    pub closed spec fn spec_stage(&self) -> Stage {
        self.stage
    }

    /// The backend operations of this run so far, one record per operation
    /// started or declined, in order, each marked once it has ended well.
    pub closed spec fn history(&self) -> Seq<Call> {
        self.calls@
    }

    pub open spec fn groups(&self) -> int {
        self.batches().len() as int
    }

    pub open spec fn wf(&self) -> bool {
        &&& self.groups() <= usize::MAX
        &&& stage_wf(self.settings(), self.groups(), self.spec_stage(), self.history())
    }

    /// Starts reconciling `list` under `config`; the result holds the first
    /// thing to do.
    pub fn new(list: PackageList, config: &Config) -> (r: (Reconciler, Action))
        ensures
            r.0.wf(),
            r.0.spec_package_count() == list.0.len(),
            r.0.settings() == settings_of(*config),
            r.0.batches().len() == sources_in_order(list.0@).len(),
            forall|i: int|
                0 <= i < r.0.batches().len() ==> (#[trigger] r.0.batches()[i]).source
                    == sources_in_order(list.0@)[i] && views(r.0.batches()[i].names@) == names_of(
                    list.0@,
                    r.0.batches()[i].source,
                ),
            r.0.spec_stage() == initial_stage(r.0.settings(), r.0.groups()),
            r.0.history() == entry_calls(r.0.spec_stage()),
            r.1 == action_of(r.0.spec_stage(), r.0.spec_package_count()),
    {
        let package_count = list.0.len();
        let settings = ApplySettings::from_config(config);
        let batches = group_by_source(list);
        let mut r = Reconciler {
            batches,
            package_count,
            settings,
            stage: Stage::Done,
            calls: Ghost(Seq::empty()),
        };
        let stage = if settings.prompt_apply_continue {
            Stage::ConfirmApply
        } else {
            r.install_entry(0)
        };
        r.stage = stage;
        r.calls = Ghost(entry_calls(stage));
        proof {
            if !settings.prompt_apply_continue {
                lemma_install_entry(settings, r.groups(), Seq::empty(), 0);
                assert(Seq::<Call>::empty() + entry_calls(stage) =~= entry_calls(stage));
            }
        }
        let a = r.action();
        (r, a)
    }

    fn removal_entry(&self, i: usize) -> (r: Stage)
        requires
            i <= self.batches.len(),
        ensures
            r == removal_entry(self.settings, self.batches.len() as int, i as int),
    {
        if !self.settings.remove_unrequired_software || i >= self.batches.len() {
            Stage::Done
        } else if self.settings.prompt_removal_per_source {
            Stage::ConfirmRemoval(i)
        } else {
            Stage::Removing(i)
        }
    }

    fn install_entry(&self, i: usize) -> (r: Stage)
        requires
            i <= self.batches.len(),
        ensures
            r == install_entry(self.settings, self.batches.len() as int, i as int),
    {
        if i >= self.batches.len() {
            self.removal_entry(0)
        } else if self.settings.prompt_install_per_source {
            Stage::ConfirmInstall(i)
        } else {
            Stage::Installing(i)
        }
    }

    /// What the driver is to do at the current stage.
    fn action(&self) -> (r: Action)
        ensures
            r == action_of(self.stage, self.package_count),
    {
        match self.stage {
            Stage::ConfirmApply => Action::AskApply { package_count: self.package_count },
            Stage::ConfirmInstall(i) => Action::AskInstall { group: i },
            Stage::Installing(i) => Action::Install { group: i },
            Stage::ConfirmRemoval(i) => Action::AskRemoval { group: i },
            Stage::Removing(i) => Action::Remove { group: i },
            Stage::Done => Action::Finish,
            _ => Action::Stop(BlueprintError::UserAborted),
        }
    }

    /// Takes the driver's report on the last action and says what to do
    /// next. A failure ends reconciliation at once with the backend's error;
    /// declining to apply ends it with `UserAborted`.
    pub fn step(&mut self, ev: Event) -> (a: Action)
        requires
            old(self).wf(),
            expects(old(self).spec_stage(), ev),
        ensures
            final(self).wf(),
            final(self).batches() == old(self).batches(),
            final(self).settings() == old(self).settings(),
            final(self).spec_package_count() == old(self).spec_package_count(),
            final(self).spec_stage() == next_stage(
                old(self).settings(),
                old(self).groups(),
                old(self).spec_stage(),
                ev,
            ),
            final(self).history() == settle(old(self).history(), old(self).spec_stage(), ev)
                + entry_calls(final(self).spec_stage()),
            ev matches Event::Failed(e) ==> a == Action::Stop(e),
            !(ev is Failed) ==> a == action_of(
                final(self).spec_stage(),
                final(self).spec_package_count(),
            ),
    {
        let ghost ev0 = ev;
        let ghost h = self.calls@;
        let ghost n = self.batches.len() as int;
        let ghost s = self.settings;
        let ghost st0 = self.stage;
        match ev {
            Event::Failed(e) => {
                self.stage = Stage::Failed;
                self.calls = Ghost(settle(h, st0, ev0) + entry_calls(Stage::Failed));
                proof {
                    assert(self.calls@ =~= h);
                    assert forall|j: int| 0 <= j < h.len() implies if j < n {
                        settles_install(#[trigger] h[j], j) || (j == h.len() - 1 && h[j]
                            == Call::InstallStarted(j as usize))
                    } else {
                        settles_removal(h[j], j - n) || (j == h.len() - 1 && h[j]
                            == Call::RemovalStarted((j - n) as usize))
                    } by {
                        if j < n {
                            if j < h.len() - 1 {
                                assert(settles_install(h[j], j));
                            }
                        } else if j < h.len() - 1 {
                            assert(settles_removal(h[j], j - n));
                        }
                    }
                }
                return Action::Stop(e);
            },
            Event::Answer(yes) => {
                match self.stage {
                    Stage::ConfirmApply => {
                        if yes {
                            self.stage = self.install_entry(0);
                            proof {
                                lemma_install_entry(s, n, h, 0);
                            }
                        } else {
                            self.stage = Stage::Declined;
                        }
                    },
                    Stage::ConfirmInstall(i) => {
                        if yes {
                            self.stage = Stage::Installing(i);
                            proof {
                                let h2 = h.push(Call::InstallStarted(i));
                                assert(h + entry_calls(Stage::Installing(i)) == h2);
                                assert forall|g: int| 0 <= g < i implies settles_install(
                                    #[trigger] h2[g],
                                    g,
                                ) by {
                                    assert(h2[g] == h[g]);
                                }
                            }
                        } else {
                            self.stage = self.install_entry(i + 1);
                            proof {
                                let h1 = h.push(Call::InstallSkipped(i));
                                assert forall|g: int| 0 <= g < i + 1 implies settles_install(
                                    #[trigger] h1[g],
                                    g,
                                ) by {
                                    if g < i {
                                        assert(h1[g] == h[g]);
                                    }
                                }
                                lemma_install_entry(s, n, h1, i + 1);
                            }
                        }
                    },
                    Stage::ConfirmRemoval(i) => {
                        if yes {
                            self.stage = Stage::Removing(i);
                            proof {
                                let h2 = h.push(Call::RemovalStarted(i));
                                assert(h + entry_calls(Stage::Removing(i)) == h2);
                                assert forall|g: int| 0 <= g < n implies settles_install(
                                    #[trigger] h2[g],
                                    g,
                                ) by {
                                    assert(h2[g] == h[g]);
                                }
                                assert forall|j: int| n <= j < n + i implies settles_removal(
                                    #[trigger] h2[j],
                                    j - n,
                                ) by {
                                    assert(h2[j] == h[j]);
                                }
                            }
                        } else {
                            self.stage = self.removal_entry(i + 1);
                            proof {
                                let h1 = h.push(Call::RemovalSkipped(i));
                                assert forall|g: int| 0 <= g < n implies settles_install(
                                    #[trigger] h1[g],
                                    g,
                                ) by {
                                    assert(h1[g] == h[g]);
                                }
                                assert forall|j: int| n <= j < n + i + 1 implies settles_removal(
                                    #[trigger] h1[j],
                                    j - n,
                                ) by {
                                    if j < n + i {
                                        assert(h1[j] == h[j]);
                                    }
                                }
                                lemma_removal_entry(s, n, h1, i + 1);
                            }
                        }
                    },
                    _ => {},
                }
            },
            Event::Succeeded => {
                match self.stage {
                    Stage::Installing(i) => {
                        self.stage = self.install_entry(i + 1);
                        proof {
                            let h1 = h.update(h.len() - 1, Call::Installed(i));
                            assert forall|g: int| 0 <= g < i + 1 implies settles_install(
                                #[trigger] h1[g],
                                g,
                            ) by {
                                if g < i {
                                    assert(h1[g] == h[g]);
                                }
                            }
                            lemma_install_entry(s, n, h1, i + 1);
                        }
                    },
                    Stage::Removing(i) => {
                        self.stage = self.removal_entry(i + 1);
                        proof {
                            let h1 = h.update(h.len() - 1, Call::Removed(i));
                            assert forall|g: int| 0 <= g < n implies settles_install(
                                #[trigger] h1[g],
                                g,
                            ) by {
                                assert(h1[g] == h[g]);
                            }
                            assert forall|j: int| n <= j < n + i + 1 implies settles_removal(
                                #[trigger] h1[j],
                                j - n,
                            ) by {
                                if j < n + i {
                                    assert(h1[j] == h[j]);
                                }
                            }
                            lemma_removal_entry(s, n, h1, i + 1);
                        }
                    },
                    _ => {},
                }
            },
        }
        self.calls = Ghost(settle(h, st0, ev0) + entry_calls(self.stage));
        self.action()
    }

    /// The stage reached.
    pub fn stage(&self) -> (r: Stage)
        ensures
            r == self.spec_stage(),
    {
        self.stage
    }

    /// How many packages are being reconciled.
    pub fn package_count(&self) -> (r: usize)
        ensures
            r == self.spec_package_count(),
    {
        self.package_count
    }

    /// The number of batches, one per backend present.
    pub fn group_count(&self) -> (r: usize)
        ensures
            r == self.groups(),
    {
        self.batches.len()
    }

    /// The batch of a group.
    pub fn batch(&self, group: usize) -> (r: &SourceBatch)
        requires
            group < self.groups(),
        ensures
            *r == self.batches()[group as int],
    {
        &self.batches[group]
    }
}

/// No removal is started or skipped before the install of every present
/// backend has ended successfully or been declined: every removal record
/// comes after one settled install record per group.
pub proof fn lemma_installs_settle_before_removal(r: &Reconciler)
    requires
        r.wf(),
    ensures
        forall|j: int|
            0 <= j < r.history().len() && is_removal_call(#[trigger] r.history()[j]) ==> {
                &&& r.groups() <= j
                &&& forall|g: int| 0 <= g < r.groups() ==> settles_install(#[trigger] r.history()[g], g)
            },
        (r.spec_stage() is ConfirmRemoval || r.spec_stage() is Removing) ==> install_records(
            r.history(),
            r.groups(),
        ),
{
    let h = r.history();
    let n = r.groups();
    assert forall|j: int| 0 <= j < h.len() && is_removal_call(#[trigger] h[j]) implies {
        &&& n <= j
        &&& forall|g: int| 0 <= g < n ==> settles_install(#[trigger] h[g], g)
    } by {
        match r.spec_stage() {
            Stage::ConfirmInstall(i) => {
                assert(settles_install(h[j], j));
            },
            Stage::Installing(i) => {
                if j < i {
                    assert(settles_install(h[j], j));
                }
            },
            Stage::Failed => {
                if j < n {
                    assert(settles_install(h[j], j) || h[j] == Call::InstallStarted(j as usize));
                }
                assert forall|g: int| 0 <= g < n implies settles_install(#[trigger] h[g], g) by {
                    assert(g < h.len() - 1);
                }
            },
            _ => {
                if j < n {
                    assert(settles_install(h[j], j));
                }
            },
        }
    }
}

/// Declining to apply ends reconciliation before any backend operation: no
/// record, and no report is awaited afterwards.
pub proof fn lemma_declined_apply_makes_no_calls(r: &Reconciler)
    requires
        r.wf(),
        r.spec_stage() == Stage::ConfirmApply,
    ensures
        next_stage(r.settings(), r.groups(), r.spec_stage(), Event::Answer(false)) == Stage::Declined,
        settle(r.history(), r.spec_stage(), Event::Answer(false)) + entry_calls(Stage::Declined)
            == Seq::<Call>::empty(),
        forall|ev: Event| !expects(Stage::Declined, ev),
        action_of(Stage::Declined, r.spec_package_count()) == Action::Stop(
            BlueprintError::UserAborted,
        ),
{
    assert(settle(r.history(), r.spec_stage(), Event::Answer(false)) + entry_calls(Stage::Declined)
        =~= Seq::<Call>::empty());
}

/// Declining to install through one backend skips its install and nothing
/// else: its record is a skip, no install of that group is recorded, and
/// reconciliation goes on with the next group, or with the removal pass
/// after the last one.
pub proof fn lemma_declined_install_skips_one_backend(r: &Reconciler, i: usize)
    requires
        r.wf(),
        r.spec_stage() == Stage::ConfirmInstall(i),
    ensures
        ({
            let ev = Event::Answer(false);
            let next = next_stage(r.settings(), r.groups(), r.spec_stage(), ev);
            let h = settle(r.history(), r.spec_stage(), ev) + entry_calls(next);
            &&& next == install_entry(r.settings(), r.groups(), i + 1)
            &&& i + 1 < r.groups() ==> next == Stage::ConfirmInstall((i + 1) as usize)
            &&& i + 1 == r.groups() ==> next == removal_entry(r.settings(), r.groups(), 0)
            &&& h[i as int] == Call::InstallSkipped(i)
            &&& forall|j: int|
                0 <= j < h.len() ==> #[trigger] h[j] != Call::InstallStarted(i) && h[j]
                    != Call::Installed(i)
        }),
{
    let ev = Event::Answer(false);
    let next = next_stage(r.settings(), r.groups(), r.spec_stage(), ev);
    let h0 = r.history();
    let h = settle(h0, r.spec_stage(), ev) + entry_calls(next);
    assert(settle(h0, r.spec_stage(), ev) == h0.push(Call::InstallSkipped(i)));
    assert forall|j: int| 0 <= j < h.len() implies #[trigger] h[j] != Call::InstallStarted(i) && h[j]
        != Call::Installed(i) by {
        if j < i {
            assert(h[j] == h0[j]);
            assert(settles_install(h0[j], j));
        }
    }
}

} // verus!
