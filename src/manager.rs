//! Reconciliation: choosing the layout for the attached monitors and the
//! display command's arguments that apply it.

use vstd::prelude::*;
use vstd::string::*;

use crate::config::{
    profile_available, slot_fingerprints, slot_views, text_set, Config, Profile, ProfileView,
    SlotsView,
};
use crate::errors::Error;
use crate::fingerprint::RawOutput;
use crate::output::{output_args, Output, OutputView};
use crate::topology::{
    find_key, has_key, key_index, keyed_table, keys_of, output_views, raw_views, topology_of, topology_wf,
    Topology, TopologyView,
};

verus! {

pub open spec fn output_flag() -> Seq<char> {
    "--output"@
}

pub open spec fn off_flag() -> Seq<char> {
    "--off"@
}

/// The fingerprints of a snapshot's active and connected outputs.
pub open spec fn available_set(t: TopologyView) -> Set<Seq<char>> {
    keys_of(t.active).union(keys_of(t.connected))
}

/// The position of the first profile, from `from` on, that is available
/// among `available`; the length of `ps` when there is none.
pub open spec fn first_available(ps: Seq<Profile>, available: Set<Seq<char>>, from: int) -> int
    decreases ps.len() - from,
{
    if from < 0 || from >= ps.len() {
        ps.len() as int
    } else if profile_available(ps[from]@, available) {
        from
    } else {
        first_available(ps, available, from + 1)
    }
}

/// The position of the profile that reconciliation selects: the first in the
/// store's order whose fingerprints are all available.
pub open spec fn selected_profile(ps: Seq<Profile>, t: TopologyView) -> int {
    first_available(ps, available_set(t), 0)
}

/// The arguments that switch the outputs `d` off, in order.
pub open spec fn off_args(d: Seq<OutputView>) -> Seq<Seq<char>>
    decreases d.len(),
{
    if d.len() == 0 {
        Seq::empty()
    } else {
        off_args(d.drop_last()) + seq![output_flag(), d.last().name.unwrap(), off_flag()]
    }
}

/// The name of the live output that carries the fingerprint `k`: the active
/// one if there is one, else the connected one.
pub open spec fn resolve_name(t: TopologyView, k: Seq<char>) -> Seq<char> {
    if has_key(t.active, k) {
        t.active[key_index(t.active, k)].name.unwrap()
    } else {
        t.connected[key_index(t.connected, k)].name.unwrap()
    }
}

/// The arguments that apply each slot to the live output with its fingerprint.
pub open spec fn slot_args(t: TopologyView, slots: SlotsView) -> Seq<Seq<char>>
    decreases slots.len(),
{
    if slots.len() == 0 {
        Seq::empty()
    } else {
        slot_args(t, slots.drop_last()) + seq![
            output_flag(),
            resolve_name(t, slots.last().1.edid.unwrap()),
        ] + output_args(slots.last().1)
    }
}

/// Every slot declares a fingerprint.
pub open spec fn slots_fingerprinted(slots: SlotsView) -> bool {
    forall|j: int| 0 <= j < slots.len() ==> (#[trigger] slots[j]).1.edid is Some
}

proof fn lemma_first_available(ps: Seq<Profile>, available: Set<Seq<char>>, from: int)
    requires
        0 <= from <= ps.len(),
    ensures
        from <= first_available(ps, available, from) <= ps.len(),
        first_available(ps, available, from) < ps.len() ==> profile_available(
            ps[first_available(ps, available, from)]@,
            available,
        ),
        forall|j: int|
            from <= j < first_available(ps, available, from) ==> !profile_available(
                #[trigger] ps[j]@,
                available,
            ),
    decreases ps.len() - from,
{
    if from < ps.len() && !profile_available(ps[from]@, available) {
        lemma_first_available(ps, available, from + 1);
    }
}

/// Selection is order-respecting: the selected profile is available, and no
/// profile before it in the store is. When none is available, the position
/// is the store's length.
pub proof fn lemma_selection_first_match(ps: Seq<Profile>, t: TopologyView)
    ensures
        0 <= selected_profile(ps, t) <= ps.len(),
        selected_profile(ps, t) < ps.len() ==> profile_available(
            ps[selected_profile(ps, t)]@,
            available_set(t),
        ),
        forall|j: int|
            0 <= j < selected_profile(ps, t) ==> !profile_available(
                #[trigger] ps[j]@,
                available_set(t),
            ),
{
    lemma_first_available(ps, available_set(t), 0);
}

proof fn lemma_first_available_same_views(
    ps1: Seq<Profile>,
    ps2: Seq<Profile>,
    available: Set<Seq<char>>,
    from: int,
)
    requires
        ps1.len() == ps2.len(),
        forall|i: int| 0 <= i < ps1.len() ==> #[trigger] ps1[i]@ == ps2[i]@,
    ensures
        first_available(ps1, available, from) == first_available(ps2, available, from),
    decreases ps1.len() - from,
{
    if 0 <= from < ps1.len() && !profile_available(ps1[from]@, available) {
        lemma_first_available_same_views(ps1, ps2, available, from + 1);
    }
}

/// Reconciliation is deterministic: stores whose profiles look the same, in
/// the same order, select the same profile in the same snapshot, and that
/// profile gives the same arguments.
pub proof fn lemma_reconcile_deterministic(ps1: Seq<Profile>, ps2: Seq<Profile>, t: TopologyView)
    requires
        ps1.len() == ps2.len(),
        forall|i: int| 0 <= i < ps1.len() ==> #[trigger] ps1[i]@ == ps2[i]@,
    ensures
        selected_profile(ps1, t) == selected_profile(ps2, t),
        0 <= selected_profile(ps1, t) < ps1.len() ==> slot_args(
            t,
            ps1[selected_profile(ps1, t)]@.slots,
        ) == slot_args(t, ps2[selected_profile(ps2, t)]@.slots),
{
    lemma_first_available_same_views(ps1, ps2, available_set(t), 0);
}

/// With no disconnected output nothing is switched off, and a profile of one
/// slot gives exactly one `--output` directive: that slot's output name and
/// its arguments.
pub proof fn lemma_single_slot_without_disconnected(t: TopologyView, slots: SlotsView)
    requires
        t.disconnected.len() == 0,
        slots.len() == 1,
    ensures
        off_args(t.disconnected) + slot_args(t, slots) == seq![
            output_flag(),
            resolve_name(t, slots[0].1.edid.unwrap()),
        ] + output_args(slots[0].1),
{
    assert(slots.drop_last() =~= Seq::<(Seq<char>, OutputView)>::empty());
    assert(off_args(t.disconnected) =~= Seq::<Seq<char>>::empty());
    assert(slot_args(t, slots.drop_last()) =~= Seq::<Seq<char>>::empty());
    assert(off_args(t.disconnected) + slot_args(t, slots) =~= seq![
        output_flag(),
        resolve_name(t, slots[0].1.edid.unwrap()),
    ] + output_args(slots[0].1));
}

/// The arguments that switch the snapshot's disconnected outputs off.
fn off_arguments(t: &Topology) -> (r: Vec<String>)
    ensures
        r.deep_view() == off_args(t@.disconnected),
{
    let d = t.disconnected();
    let ghost dv = output_views(d@);
    let mut r: Vec<String> = Vec::new();
    let n = d.len();
    assert(r.deep_view() =~= off_args(dv.take(0)));
    for j in 0..n
        invariant
            n == d.len(),
            dv == output_views(d@),
            dv == t@.disconnected,
            topology_wf(t@),
            r.deep_view() == off_args(dv.take(j as int)),
    {
        let ghost before = r.deep_view();
        assert(dv.take(j + 1).drop_last() =~= dv.take(j as int));
        assert(dv[j as int].name is Some);
        match &d[j].output_name {
            Some(name) => {
                r.push(String::from_str("--output"));
                r.push(name.clone());
                r.push(String::from_str("--off"));
                assert(r.deep_view() =~= before + seq![output_flag(), name@, off_flag()]);
            },
            None => {},
        }
    }
    assert(dv.take(n as int) =~= dv);
    r
}

/// The fingerprints of the snapshot's active and connected outputs.
fn available_fingerprints(t: &Topology) -> (r: Vec<String>)
    ensures
        text_set(r@) == available_set(t@),
{
    let active = t.active();
    let connected = t.connected();
    let ghost av = output_views(active@);
    let ghost cv = output_views(connected@);
    let mut r: Vec<String> = Vec::new();
    let na = active.len();
    for j in 0..na
        invariant
            na == active.len(),
            av == output_views(active@),
            keyed_table(av),
            r.len() == j,
            forall|q: int| 0 <= q < j ==> Some(#[trigger] r@[q]@) == av[q].edid,
    {
        assert(av[j as int].edid is Some);
        match &active[j].edid {
            Some(e) => r.push(e.clone()),
            None => {},
        }
    }
    let nc = connected.len();
    for j in 0..nc
        invariant
            na == active.len(),
            nc == connected.len(),
            av == output_views(active@),
            cv == output_views(connected@),
            keyed_table(cv),
            r.len() == na + j,
            forall|q: int| 0 <= q < na ==> Some(#[trigger] r@[q]@) == av[q].edid,
            forall|q: int| 0 <= q < j ==> Some(#[trigger] r@[na + q]@) == cv[q].edid,
    {
        assert(cv[j as int].edid is Some);
        match &connected[j].edid {
            Some(e) => r.push(e.clone()),
            None => {},
        }
    }
    assert forall|f: Seq<char>| text_set(r@).contains(f) <==> available_set(t@).contains(f) by {
        if text_set(r@).contains(f) {
            let w = choose|q: int| 0 <= q < r@.len() && r@[q]@ == f;
            if w < na {
                assert(av[w].edid == Some(f));
                assert(has_key(av, f));
            } else {
                let q = w - na;
                assert(r@[na + q]@ == f);
                assert(cv[q].edid == Some(f));
                assert(has_key(cv, f));
            }
        }
        if has_key(av, f) {
            let w = choose|q: int| 0 <= q < av.len() && av[q].edid == Some(f);
            assert(r@[w]@ == f);
        }
        if has_key(cv, f) {
            let w = choose|q: int| 0 <= q < cv.len() && cv[q].edid == Some(f);
            assert(r@[na + w]@ == f);
        }
    }
    assert(text_set(r@) =~= available_set(t@));
    r
}

/// The position of the first profile that is available among `available`.
fn select(profiles: &Vec<Profile>, available: &Vec<String>) -> (r: usize)
    ensures
        r == first_available(profiles@, text_set(available@), 0),
{
    let mut i: usize = 0;
    while i < profiles.len()
        invariant
            i <= profiles.len(),
            first_available(profiles@, text_set(available@), 0) == first_available(
                profiles@,
                text_set(available@),
                i as int,
            ),
        decreases profiles.len() - i,
    {
        if profiles[i].is_available(available) {
            return i;
        }
        i = i + 1;
    }
    i
}

/// The identifier of the profile that mirror mode uses.
pub open spec fn mirror_profile_name() -> Seq<char> {
    "mirror"@
}

/// The slot of the mirror profile whose output every display copies.
pub open spec fn mirror_slot_name() -> Seq<char> {
    "all-monitors"@
}

/// The profile carries the mirror profile's identifier and has the slot whose
/// output every display copies.
pub open spec fn is_mirror_profile(p: ProfileView) -> bool {
    p.name == mirror_profile_name() && first_slot_named(p.slots, mirror_slot_name(), 0)
        < p.slots.len()
}

/// The position of the first mirror profile, from `from` on; the length of
/// `ps` when there is none.
pub open spec fn first_mirror(ps: Seq<Profile>, from: int) -> int
    decreases ps.len() - from,
{
    if from < 0 || from >= ps.len() {
        ps.len() as int
    } else if is_mirror_profile(ps[from]@) {
        from
    } else {
        first_mirror(ps, from + 1)
    }
}

/// The position of the first slot, from `from` on, named `name`; the number
/// of slots when there is none.
pub open spec fn first_slot_named(slots: SlotsView, name: Seq<char>, from: int) -> int
    decreases slots.len() - from,
{
    if from < 0 || from >= slots.len() {
        slots.len() as int
    } else if slots[from].0 == name {
        from
    } else {
        first_slot_named(slots, name, from + 1)
    }
}

/// The arguments that apply `slot` to each of the outputs `c`, in order.
pub open spec fn mirror_args(c: Seq<OutputView>, slot: OutputView) -> Seq<Seq<char>>
    decreases c.len(),
{
    if c.len() == 0 {
        Seq::empty()
    } else {
        mirror_args(c.drop_last(), slot) + seq![output_flag(), c.last().name.unwrap()]
            + output_args(slot)
    }
}

/// The position of the first mirror profile.
fn find_mirror(profiles: &Vec<Profile>) -> (r: usize)
    ensures
        r == first_mirror(profiles@, 0),
{
    let mirror_name = String::from_str("mirror");
    let slot_name = String::from_str("all-monitors");
    let mut i: usize = 0;
    while i < profiles.len()
        invariant
            i <= profiles.len(),
            mirror_name@ == mirror_profile_name(),
            slot_name@ == mirror_slot_name(),
            first_mirror(profiles@, 0) == first_mirror(profiles@, i as int),
        decreases profiles.len() - i,
    {
        let p = &profiles[i];
        if String::from_str(p.name()) == mirror_name {
            let slots = p.slots();
            let si = find_slot(slots, &slot_name);
            if si < slots.len() {
                return i;
            }
        }
        i = i + 1;
    }
    i
}

/// The position of the first slot named `name`.
fn find_slot(slots: &Vec<(String, Output)>, name: &String) -> (r: usize)
    ensures
        r == first_slot_named(slot_views(slots@), name@, 0),
{
    let ghost sv = slot_views(slots@);
    let mut i: usize = 0;
    while i < slots.len()
        invariant
            i <= slots.len(),
            sv == slot_views(slots@),
            first_slot_named(sv, name@, 0) == first_slot_named(sv, name@, i as int),
        decreases slots.len() - i,
    {
        if slots[i].0 == *name {
            return i;
        }
        i = i + 1;
    }
    i
}

proof fn lemma_first_mirror(ps: Seq<Profile>, from: int)
    requires
        0 <= from <= ps.len(),
    ensures
        from <= first_mirror(ps, from) <= ps.len(),
        first_mirror(ps, from) < ps.len() ==> is_mirror_profile(ps[first_mirror(ps, from)]@),
    decreases ps.len() - from,
{
    if from < ps.len() && !is_mirror_profile(ps[from]@) {
        lemma_first_mirror(ps, from + 1);
    }
}

proof fn lemma_first_slot_named_bound(slots: SlotsView, name: Seq<char>, from: int)
    requires
        0 <= from <= slots.len(),
    ensures
        from <= first_slot_named(slots, name, from) <= slots.len(),
    decreases slots.len() - from,
{
    if from < slots.len() && slots[from].0 != name {
        lemma_first_slot_named_bound(slots, name, from + 1);
    }
}

/// How the display command ended.
#[derive(Debug, PartialEq, Eq, Structural, Clone, Copy)]
pub enum ExitOutcome {
    /// It exited with this code.
    Exited(u32),
    /// It was killed by this signal.
    Signaled(u8),
    /// It ended in some other way.
    Other,
}

/// The result of running the display command `cmdline`: success only when it
/// exited with code zero.
pub fn command_result(cmdline: String, outcome: ExitOutcome) -> (r: Result<(), Error>)
    ensures
        match outcome {
            ExitOutcome::Exited(0) => r is Ok,
            ExitOutcome::Exited(c) => r == Err::<(), Error>(Error::SubprocessFailed(cmdline, c)),
            ExitOutcome::Signaled(s) => r == Err::<(), Error>(
                Error::SubprocessKilledBySignal(cmdline, s),
            ),
            ExitOutcome::Other => r == Err::<(), Error>(Error::SubprocessUnknownFailure(cmdline)),
        },
{
    match outcome {
        ExitOutcome::Exited(0) => Ok(()),
        ExitOutcome::Exited(c) => Err(Error::SubprocessFailed(cmdline, c)),
        ExitOutcome::Signaled(s) => Err(Error::SubprocessKilledBySignal(cmdline, s)),
        ExitOutcome::Other => Err(Error::SubprocessUnknownFailure(cmdline)),
    }
}

/// The profile store together with the latest snapshot of the outputs.
pub struct Manager {
    config: Config,
    topology: Topology,
}

pub struct ManagerView {
    pub profiles: Seq<Profile>,
    pub topology: TopologyView,
}

impl View for Manager {
    type V = ManagerView;

    closed spec fn view(&self) -> ManagerView {
        ManagerView { profiles: self.config@, topology: self.topology@ }
    }
}

impl Manager {
    /// A manager for the given profiles that has not detected any output yet.
    pub fn from(config: Config) -> (m: Manager)
        ensures
            m@.profiles == config@,
            m@.topology.active.len() == 0,
            m@.topology.connected.len() == 0,
            m@.topology.disconnected.len() == 0,
    {
        Manager { config, topology: Topology::empty() }
    }

    /// Replaces the snapshot with a fresh one built from the display server's
    /// reports: `active` are the outputs that drive a display, `all` every
    /// output.
    pub fn detect(self, active: &Vec<RawOutput>, all: &Vec<RawOutput>) -> (m: Manager)
        ensures
            m@.profiles == self@.profiles,
            m@.topology == topology_of(raw_views(active@), raw_views(all@)),
    {
        Manager { config: self.config, topology: Topology::build(active, all) }
    }

    /// The display command's arguments for this snapshot: every disconnected
    /// output switched off, then each slot of the selected profile applied to
    /// the live output with its fingerprint. Without a selected profile only
    /// the outputs are switched off. A selected profile with a slot that
    /// declares no fingerprint cannot be applied.
    pub fn reconcile(&self) -> (r: Result<Vec<String>, Error>)
        ensures
            ({
                let ps = self@.profiles;
                let t = self@.topology;
                let i = selected_profile(ps, t);
                &&& i >= ps.len() ==> (r matches Ok(a) && a.deep_view() == off_args(
                    t.disconnected,
                ))
                &&& (0 <= i < ps.len() && slots_fingerprinted(ps[i]@.slots)) ==> (r matches Ok(a)
                    && a.deep_view() == off_args(t.disconnected) + slot_args(t, ps[i]@.slots))
                &&& (0 <= i < ps.len() && !slots_fingerprinted(ps[i]@.slots)) ==> (r matches Err(
                    Error::UnresolvedProfileSlot(n),
                ) && n@ == ps[i]@.name)
            }),
    {
        let t = &self.topology;
        let mut args = off_arguments(t);
        let available = available_fingerprints(t);
        let profiles = self.config.profiles();
        let i = select(profiles, &available);
        proof {
            lemma_first_available(profiles@, text_set(available@), 0);
        }
        if i < profiles.len() {
            let p = &profiles[i];
            let slots = p.slots();
            let active = t.active();
            let connected = t.connected();
            let ghost tv = t@;
            let ghost sv = p@.slots;
            let ghost base = args.deep_view();
            let n = slots.len();
            assert(args.deep_view() =~= base + slot_args(tv, sv.take(0)));
            assert(selected_profile(self@.profiles, self@.topology) == i);
            for j in 0..n
                invariant
                    n == slots.len(),
                    i < profiles.len(),
                    *p == profiles@[i as int],
                    self@.profiles == profiles@,
                    self@.topology == tv,
                    i == selected_profile(self@.profiles, tv),
                    base == off_args(tv.disconnected),
                    slot_views(slots@) == sv,
                    sv == p@.slots,
                    tv == t@,
                    topology_wf(tv),
                    output_views(active@) == tv.active,
                    output_views(connected@) == tv.connected,
                    profile_available(p@, available_set(tv)),
                    forall|q: int| 0 <= q < j ==> (#[trigger] sv[q]).1.edid is Some,
                    args.deep_view() == base + slot_args(tv, sv.take(j as int)),
            {
                let slot = &slots[j];
                assert(sv[j as int] == (slot.0@, slot.1@));
                match &slot.1.edid {
                    None => {
                        assert(!slots_fingerprinted(sv));
                        return Err(Error::UnresolvedProfileSlot(String::from_str(p.name())));
                    },
                    Some(k) => {
                        assert(slot_fingerprints(sv).contains(k@));
                        let name: &String = match (find_key(active, k), find_key(connected, k)) {
                            (Some(a), None) => {
                                assert(tv.active[a as int].name is Some);
                                match &active[a].output_name {
                                    Some(nm) => nm,
                                    None => {
                                        return Err(Error::InconsistentTopology);
                                    },
                                }
                            },
                            (None, Some(c)) => {
                                assert(tv.connected[c as int].name is Some);
                                match &connected[c].output_name {
                                    Some(nm) => nm,
                                    None => {
                                        return Err(Error::InconsistentTopology);
                                    },
                                }
                            },
                            (Some(a), Some(c)) => {
                                proof {
                                    assert(keys_of(tv.active).contains(k@));
                                    assert(keys_of(tv.connected).contains(k@));
                                }
                                return Err(Error::InconsistentTopology);
                            },
                            (None, None) => {
                                proof {
                                    assert(available_set(tv).contains(k@));
                                }
                                return Err(Error::InconsistentTopology);
                            },
                        };
                        assert(name@ == resolve_name(tv, k@));
                        let ghost before = args.deep_view();
                        args.push(String::from_str("--output"));
                        args.push(name.clone());
                        let mut extra = slot.1.get_args();
                        let ghost ev = extra.deep_view();
                        args.append(&mut extra);
                        assert(args.deep_view() =~= before + seq![output_flag(), name@] + ev);
                        assert(sv.take(j + 1).drop_last() =~= sv.take(j as int));
                    },
                }
            }
            assert(sv.take(n as int) =~= sv);
        }
        Ok(args)
    }

    /// The display command's arguments for mirror mode: every disconnected
    /// output switched off, then the `all-monitors` slot of the first profile
    /// named `mirror` that has one, applied to the one active output and to
    /// every connected output. It fails when there is no such profile, and
    /// when there is no active output or more than one.
    pub fn mirror(&self) -> (r: Result<Vec<String>, Error>)
        ensures
            ({
                let ps = self@.profiles;
                let t = self@.topology;
                let mi = first_mirror(ps, 0);
                let slots = ps[mi]@.slots;
                let si = first_slot_named(slots, mirror_slot_name(), 0);
                &&& mi >= ps.len() ==> (r matches Err(Error::MirrorModeMissingProfile))
                &&& (mi < ps.len() && t.active.len() == 0) ==> (r matches Err(
                    Error::NoActiveMonitors,
                ))
                &&& (mi < ps.len() && t.active.len() > 1) ==> (r matches Err(
                    Error::MirrorModeTooManyActiveMonitors,
                ))
                &&& (mi < ps.len() && t.active.len() == 1) ==> (r matches Ok(
                    a,
                ) && a.deep_view() == off_args(t.disconnected) + seq![
                    output_flag(),
                    t.active[0].name.unwrap(),
                ] + output_args(slots[si].1) + mirror_args(t.connected, slots[si].1))
            }),
    {
        let t = &self.topology;
        let mut args = off_arguments(t);
        let profiles = self.config.profiles();
        let mi = find_mirror(profiles);
        proof {
            lemma_first_mirror(profiles@, 0);
        }
        if mi >= profiles.len() {
            return Err(Error::MirrorModeMissingProfile);
        }
        let slots = profiles[mi].slots();
        let si = find_slot(slots, &String::from_str("all-monitors"));
        proof {
            lemma_first_slot_named_bound(slot_views(slots@), mirror_slot_name(), 0);
        }
        if si >= slots.len() {
            return Err(Error::MirrorModeMissingProfile);
        }
        let source = &slots[si].1;
        let ghost sv = source@;
        let active = t.active();
        if active.len() == 0 {
            return Err(Error::NoActiveMonitors);
        }
        if active.len() > 1 {
            return Err(Error::MirrorModeTooManyActiveMonitors);
        }
        let ghost tv = t@;
        assert(tv.active[0].name is Some);
        match &active[0].output_name {
            Some(nm) => {
                args.push(String::from_str("--output"));
                args.push(nm.clone());
            },
            None => {},
        }
        let mut extra = source.get_args();
        args.append(&mut extra);
        let ghost base = args.deep_view();
        assert(base =~= off_args(tv.disconnected) + seq![output_flag(), tv.active[0].name.unwrap()]
            + output_args(sv));
        let connected = t.connected();
        let ghost cv = output_views(connected@);
        let n = connected.len();
        assert(args.deep_view() =~= base + mirror_args(cv.take(0), sv));
        for j in 0..n
            invariant
                n == connected.len(),
                cv == output_views(connected@),
                cv == tv.connected,
                topology_wf(tv),
                sv == source@,
                args.deep_view() == base + mirror_args(cv.take(j as int), sv),
        {
            let ghost before = args.deep_view();
            assert(cv[j as int].name is Some);
            assert(cv.take(j + 1).drop_last() =~= cv.take(j as int));
            match &connected[j].output_name {
                Some(nm) => {
                    args.push(String::from_str("--output"));
                    args.push(nm.clone());
                    let mut more = source.get_args();
                    let ghost mv = more.deep_view();
                    args.append(&mut more);
                    assert(args.deep_view() =~= before + seq![output_flag(), nm@] + mv);
                },
                None => {},
            }
        }
        assert(cv.take(n as int) =~= cv);
        Ok(args)
    }

    /// The profile store.
    pub fn config(&self) -> (r: &Config)
        ensures
            r@ == self@.profiles,
    {
        &self.config
    }

    /// The latest snapshot.
    pub fn topology(&self) -> (r: &Topology)
        ensures
            r@ == self@.topology,
    {
        &self.topology
    }
}

} // verus!
