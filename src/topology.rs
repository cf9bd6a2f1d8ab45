//! Topology snapshots: every output of the display server classified as
//! active, connected or disconnected.

use vstd::prelude::*;

use crate::fingerprint::{RawOutput, RawOutputView};
use crate::output::{output_of_raw, Output, OutputView};

verus! {

/// Some entry of `s` carries the fingerprint `k`.
pub open spec fn has_key(s: Seq<OutputView>, k: Seq<char>) -> bool {
    exists|j: int| 0 <= j < s.len() && s[j].edid == Some(k)
}

/// The position of the entry of `s` that carries the fingerprint `k`.
pub open spec fn key_index(s: Seq<OutputView>, k: Seq<char>) -> int {
    choose|j: int| 0 <= j < s.len() && s[j].edid == Some(k)
}

/// The fingerprints that the entries of `s` carry.
pub open spec fn keys_of(s: Seq<OutputView>) -> Set<Seq<char>> {
    Set::new(|k: Seq<char>| has_key(s, k))
}

/// `s` with `o` stored under the fingerprint `k`: it replaces the entry that
/// carries `k`, or is appended when there is none.
pub open spec fn put_keyed(s: Seq<OutputView>, k: Seq<char>, o: OutputView) -> Seq<OutputView> {
    if has_key(s, k) {
        s.update(key_index(s, k), o)
    } else {
        s.push(o)
    }
}

/// An entry table keyed by fingerprint: each entry is named and fingerprinted,
/// and no two entries share a fingerprint.
pub open spec fn keyed_table(s: Seq<OutputView>) -> bool {
    &&& forall|j: int| 0 <= j < s.len() ==> (#[trigger] s[j]).name is Some && s[j].edid is Some
    &&& forall|i: int, j: int|
        0 <= i < j < s.len() ==> (#[trigger] s[i]).edid != (#[trigger] s[j]).edid
}

/// The active outputs of a report: each fingerprinted output under its
/// fingerprint, a later one replacing an earlier one with the same fingerprint.
pub open spec fn active_entries(raws: Seq<RawOutputView>) -> Seq<OutputView>
    decreases raws.len(),
{
    if raws.len() == 0 {
        Seq::empty()
    } else {
        let prev = active_entries(raws.drop_last());
        let o = output_of_raw(raws.last());
        match o.edid {
            Some(k) => put_keyed(prev, k, o),
            None => prev,
        }
    }
}

/// The connected outputs of a report: each fingerprinted output whose
/// fingerprint is not among the active ones, under its fingerprint.
pub open spec fn connected_entries(active: Seq<OutputView>, raws: Seq<RawOutputView>) -> Seq<
    OutputView,
>
    decreases raws.len(),
{
    if raws.len() == 0 {
        Seq::empty()
    } else {
        let prev = connected_entries(active, raws.drop_last());
        let o = output_of_raw(raws.last());
        match o.edid {
            Some(k) => if has_key(active, k) {
                prev
            } else {
                put_keyed(prev, k, o)
            },
            None => prev,
        }
    }
}

/// The disconnected outputs of a report: those without a fingerprint, in the
/// order reported.
pub open spec fn disconnected_entries(raws: Seq<RawOutputView>) -> Seq<OutputView>
    decreases raws.len(),
{
    if raws.len() == 0 {
        Seq::empty()
    } else {
        let prev = disconnected_entries(raws.drop_last());
        let o = output_of_raw(raws.last());
        if o.edid is None {
            prev.push(o)
        } else {
            prev
        }
    }
}

pub open spec fn raw_views(raws: Seq<RawOutput>) -> Seq<RawOutputView> {
    raws.map_values(|r: RawOutput| r@)
}

pub open spec fn output_views(s: Seq<Output>) -> Seq<OutputView> {
    s.map_values(|o: Output| o@)
}

pub struct TopologyView {
    pub active: Seq<OutputView>,
    pub connected: Seq<OutputView>,
    pub disconnected: Seq<OutputView>,
}

/// The snapshot that the display server's reports give: `active` lists the
/// outputs that drive a display, `all` every output.
pub open spec fn topology_of(active: Seq<RawOutputView>, all: Seq<RawOutputView>) -> TopologyView {
    let a = active_entries(active);
    TopologyView {
        active: a,
        connected: connected_entries(a, all),
        disconnected: disconnected_entries(all),
    }
}

/// What holds of every snapshot: active and connected outputs are keyed
/// tables with no fingerprint in both, and disconnected outputs are named and
/// carry no fingerprint.
pub open spec fn topology_wf(t: TopologyView) -> bool {
    &&& keyed_table(t.active)
    &&& keyed_table(t.connected)
    &&& keys_of(t.active).disjoint(keys_of(t.connected))
    &&& forall|j: int|
        0 <= j < t.disconnected.len() ==> (#[trigger] t.disconnected[j]).name is Some
            && t.disconnected[j].edid is None
}

/// A point-in-time classification of the display server's outputs.
pub struct Topology {
    active: Vec<Output>,
    connected: Vec<Output>,
    disconnected: Vec<Output>,
}

impl View for Topology {
    type V = TopologyView;

    closed spec fn view(&self) -> TopologyView {
        TopologyView {
            active: output_views(self.active@),
            connected: output_views(self.connected@),
            disconnected: output_views(self.disconnected@),
        }
    }
}

proof fn lemma_put_keyed(s: Seq<OutputView>, k: Seq<char>, o: OutputView)
    requires
        keyed_table(s),
        o.name is Some,
        o.edid == Some(k),
    ensures
        keyed_table(put_keyed(s, k, o)),
        keys_of(put_keyed(s, k, o)) == keys_of(s).insert(k),
{
    let r = put_keyed(s, k, o);
    if has_key(s, k) {
        let j = key_index(s, k);
        assert(0 <= j < s.len() && s[j].edid == Some(k));
        assert forall|a: Seq<char>| has_key(r, a) <==> (has_key(s, a) || a == k) by {
            if a == k {
                assert(r[j].edid == Some(a));
            }
            if has_key(s, a) && a != k {
                let w = choose|i: int| 0 <= i < s.len() && s[i].edid == Some(a);
                assert(r[w].edid == Some(a));
            }
            if has_key(r, a) {
                let w = choose|i: int| 0 <= i < r.len() && r[i].edid == Some(a);
                if w != j {
                    assert(s[w].edid == Some(a));
                }
            }
        }
    } else {
        assert forall|a: Seq<char>| has_key(r, a) <==> (has_key(s, a) || a == k) by {
            if has_key(s, a) {
                let w = choose|i: int| 0 <= i < s.len() && s[i].edid == Some(a);
                assert(r[w].edid == Some(a));
            }
            if a == k {
                assert(r[s.len() as int].edid == Some(a));
            }
            if has_key(r, a) {
                let w = choose|i: int| 0 <= i < r.len() && r[i].edid == Some(a);
                if w < s.len() {
                    assert(s[w].edid == Some(a));
                }
            }
        }
        assert forall|i: int, j: int| 0 <= i < j < r.len() implies r[i].edid != r[j].edid by {
            if j == s.len() {
                assert(s[i].edid != Some(k));
            }
        }
    }
    assert(keys_of(r) =~= keys_of(s).insert(k));
}

proof fn lemma_active_entries_keyed(raws: Seq<RawOutputView>)
    ensures
        keyed_table(active_entries(raws)),
    decreases raws.len(),
{
    if raws.len() > 0 {
        lemma_active_entries_keyed(raws.drop_last());
        let o = output_of_raw(raws.last());
        if o.edid is Some {
            lemma_put_keyed(active_entries(raws.drop_last()), o.edid.unwrap(), o);
        }
    }
}

proof fn lemma_connected_entries_keyed(active: Seq<OutputView>, raws: Seq<RawOutputView>)
    ensures
        keyed_table(connected_entries(active, raws)),
        keys_of(active).disjoint(keys_of(connected_entries(active, raws))),
    decreases raws.len(),
{
    if raws.len() == 0 {
        assert(keys_of(connected_entries(active, raws)) =~= Set::empty());
    } else {
        lemma_connected_entries_keyed(active, raws.drop_last());
        let o = output_of_raw(raws.last());
        if o.edid is Some && !has_key(active, o.edid.unwrap()) {
            lemma_put_keyed(connected_entries(active, raws.drop_last()), o.edid.unwrap(), o);
        }
    }
}

proof fn lemma_disconnected_entries_named(raws: Seq<RawOutputView>)
    ensures
        forall|j: int|
            0 <= j < disconnected_entries(raws).len() ==> (#[trigger] disconnected_entries(
                raws,
            )[j]).name is Some && disconnected_entries(raws)[j].edid is None,
    decreases raws.len(),
{
    if raws.len() > 0 {
        lemma_disconnected_entries_named(raws.drop_last());
    }
}

/// Every snapshot that the display server's reports give keeps active and
/// connected outputs apart: no fingerprint is a key of both, and each of the
/// two is keyed by fingerprint.
pub proof fn lemma_snapshot_wf(active: Seq<RawOutputView>, all: Seq<RawOutputView>)
    ensures
        topology_wf(topology_of(active, all)),
        keys_of(topology_of(active, all).active).disjoint(
            keys_of(topology_of(active, all).connected),
        ),
{
    lemma_active_entries_keyed(active);
    lemma_connected_entries_keyed(active_entries(active), all);
    lemma_disconnected_entries_named(all);
}

/// Detection is repeatable: reports of the same hardware state give the same
/// snapshot, bucket for bucket.
pub proof fn lemma_snapshot_repeatable(
    active1: Seq<RawOutputView>,
    all1: Seq<RawOutputView>,
    active2: Seq<RawOutputView>,
    all2: Seq<RawOutputView>,
)
    requires
        active1 == active2,
        all1 == all2,
    ensures
        topology_of(active1, all1).active == topology_of(active2, all2).active,
        topology_of(active1, all1).connected == topology_of(active2, all2).connected,
        topology_of(active1, all1).disconnected == topology_of(active2, all2).disconnected,
{
}

/// The position of the entry that carries the fingerprint `key`.
pub(crate) fn find_key(entries: &Vec<Output>, key: &String) -> (r: Option<usize>)
    requires
        keyed_table(output_views(entries@)),
    ensures
        match r {
            Some(j) => j < entries.len() && output_views(entries@)[j as int].edid == Some(key@)
                && j == key_index(output_views(entries@), key@),
            None => !has_key(output_views(entries@), key@),
        },
{
    let ghost s = output_views(entries@);
    let n = entries.len();
    for j in 0..n
        invariant
            n == entries.len(),
            s == output_views(entries@),
            keyed_table(s),
            forall|i: int| 0 <= i < j ==> s[i].edid != Some(key@),
    {
        let found = match &entries[j].edid {
            Some(e) => *e == *key,
            None => false,
        };
        if found {
            proof {
                assert(s[j as int].edid == Some(key@));
                assert(has_key(s, key@));
                let w = key_index(s, key@);
                if w != j {
                    assert(s[w].edid == s[j as int].edid);
                }
            }
            return Some(j);
        }
    }
    None
}

/// Stores `o` under its fingerprint.
fn put_output(entries: &mut Vec<Output>, o: Output)
    requires
        keyed_table(output_views(old(entries)@)),
        o@.name is Some,
        o@.edid is Some,
    ensures
        output_views(final(entries)@) == put_keyed(
            output_views(old(entries)@),
            o@.edid.unwrap(),
            o@,
        ),
        keyed_table(output_views(final(entries)@)),
{
    let ghost s = output_views(entries@);
    let ghost k = o@.edid.unwrap();
    let found = match &o.edid {
        Some(k) => find_key(entries, k),
        None => None,
    };
    proof {
        lemma_put_keyed(s, k, o@);
    }
    match found {
        Some(j) => {
            entries.set(j, o);
            assert(output_views(entries@) =~= s.update(j as int, o@));
        },
        None => {
            entries.push(o);
            assert(output_views(entries@) =~= s.push(o@));
        },
    }
}

impl Topology {
    #[verifier::type_invariant]
    spec fn inv(self) -> bool {
        topology_wf(self@)
    }

    /// The snapshot with no outputs.
    pub fn empty() -> (t: Topology)
        ensures
            t@.active.len() == 0,
            t@.connected.len() == 0,
            t@.disconnected.len() == 0,
    {
        let t = Topology { active: Vec::new(), connected: Vec::new(), disconnected: Vec::new() };
        proof {
            assert(keys_of(t@.active) =~= Set::empty());
        }
        t
    }

    /// Classifies the outputs that the display server reports: `active` are
    /// those that drive a display, `all` every output.
    pub fn build(active: &Vec<RawOutput>, all: &Vec<RawOutput>) -> (t: Topology)
        ensures
            t@ == topology_of(raw_views(active@), raw_views(all@)),
    {
        let ghost ra = raw_views(active@);
        let ghost rl = raw_views(all@);
        let mut act: Vec<Output> = Vec::new();
        let n = active.len();
        for i in 0..n
            invariant
                n == active.len(),
                ra == raw_views(active@),
                keyed_table(output_views(act@)),
                output_views(act@) == active_entries(ra.take(i as int)),
        {
            let o = Output::from_raw(&active[i]);
            proof {
                assert(ra.take(i + 1).drop_last() =~= ra.take(i as int));
            }
            if o.edid.is_some() {
                put_output(&mut act, o);
            }
        }
        assert(ra.take(n as int) =~= ra);
        let ghost av = output_views(act@);
        let mut con: Vec<Output> = Vec::new();
        let mut dis: Vec<Output> = Vec::new();
        let m = all.len();
        for i in 0..m
            invariant
                m == all.len(),
                rl == raw_views(all@),
                av == output_views(act@),
                keyed_table(av),
                keyed_table(output_views(con@)),
                output_views(con@) == connected_entries(av, rl.take(i as int)),
                output_views(dis@) == disconnected_entries(rl.take(i as int)),
                keys_of(av).disjoint(keys_of(output_views(con@))),
                forall|j: int|
                    0 <= j < dis.len() ==> (#[trigger] output_views(dis@)[j]).name is Some
                        && output_views(dis@)[j].edid is None,
        {
            let o = Output::from_raw(&all[i]);
            proof {
                assert(rl.take(i + 1).drop_last() =~= rl.take(i as int));
            }
            let known = match &o.edid {
                Some(k) => Some(find_key(&act, k).is_some()),
                None => None,
            };
            match known {
                Some(in_active) => {
                    if !in_active {
                        let ghost k = o@.edid.unwrap();
                        let ghost before = output_views(con@);
                        proof {
                            lemma_put_keyed(before, k, o@);
                        }
                        put_output(&mut con, o);
                        assert(keys_of(av).disjoint(keys_of(output_views(con@))));
                    }
                },
                None => {
                    let ghost before = output_views(dis@);
                    dis.push(o);
                    assert(output_views(dis@) =~= before.push(o@));
                },
            }
        }
        assert(rl.take(m as int) =~= rl);
        Topology { active: act, connected: con, disconnected: dis }
    }

    /// The outputs that drive a display.
    pub fn active(&self) -> (r: &Vec<Output>)
        ensures
            output_views(r@) == self@.active,
            topology_wf(self@),
    {
        proof {
            use_type_invariant(self);
        }
        &self.active
    }

    /// The outputs with a monitor attached that drive no display.
    pub fn connected(&self) -> (r: &Vec<Output>)
        ensures
            output_views(r@) == self@.connected,
            topology_wf(self@),
    {
        proof {
            use_type_invariant(self);
        }
        &self.connected
    }

    /// The outputs without a monitor.
    pub fn disconnected(&self) -> (r: &Vec<Output>)
        ensures
            output_views(r@) == self@.disconnected,
            topology_wf(self@),
    {
        proof {
            use_type_invariant(self);
        }
        &self.disconnected
    }
}

} // verus!
