//! Profiles and the profile store.

use vstd::multiset::Multiset;
use vstd::prelude::*;

use crate::output::{Output, OutputView};
use crate::text::{lemma_text_le_transitive, lemma_text_lt_asymmetric, text_less, text_lt};

verus! {

broadcast use vstd::seq_lib::group_to_multiset_ensures;

/// Slots as (slot name, output) pairs.
pub type SlotsView = Seq<(Seq<char>, OutputView)>;

pub open spec fn slot_views(v: Seq<(String, Output)>) -> SlotsView {
    v.map_values(|p: (String, Output)| (p.0@, p.1@))
}

/// The fingerprints that the slots declare; slots without one add nothing.
pub open spec fn slot_fingerprints(slots: SlotsView) -> Set<Seq<char>> {
    Set::new(|f: Seq<char>| exists|j: int| 0 <= j < slots.len() && slots[j].1.edid == Some(f))
}

/// No two slots share a name.
pub open spec fn slot_names_distinct(slots: SlotsView) -> bool {
    forall|i: int, j: int| 0 <= i < j < slots.len() ==> slots[i].0 != slots[j].0
}

/// The strings that `v` holds, as a set of texts.
pub open spec fn text_set(v: Seq<String>) -> Set<Seq<char>> {
    Set::new(|t: Seq<char>| exists|j: int| 0 <= j < v.len() && v[j]@ == t)
}

/// The identifier of a profile: its declared name, else the stem of the file
/// it was read from, else empty.
pub open spec fn profile_identifier(declared: Option<Seq<char>>, stem: Option<Seq<char>>) -> Seq<
    char,
> {
    match declared {
        Some(n) => n,
        None => match stem {
            Some(s) => s,
            None => Seq::empty(),
        },
    }
}

/// A profile is available when every fingerprint it requires is available.
pub open spec fn profile_available(p: ProfileView, available: Set<Seq<char>>) -> bool {
    slot_fingerprints(p.slots).subset_of(available)
}

/// A known layout: a mapping from slot name to the output that fills it.
pub struct Profile {
    outputs: Vec<(String, Output)>,
    profile_name: Option<String>,
    name: String,
    set: Vec<String>,
}

pub struct ProfileView {
    pub name: Seq<char>,
    pub profile_name: Option<Seq<char>>,
    pub slots: SlotsView,
}

impl View for Profile {
    type V = ProfileView;

    closed spec fn view(&self) -> ProfileView {
        ProfileView {
            name: self.name@,
            profile_name: self.profile_name.deep_view(),
            slots: slot_views(self.outputs@),
        }
    }
}

/// Whether `v` holds a string equal to `s`.
pub(crate) fn contains_text(v: &Vec<String>, s: &String) -> (r: bool)
    ensures
        r == text_set(v@).contains(s@),
{
    let n = v.len();
    for j in 0..n
        invariant
            n == v.len(),
            forall|i: int| 0 <= i < j ==> v@[i]@ != s@,
    {
        if v[j] == *s {
            return true;
        }
    }
    false
}

impl Profile {
    #[verifier::type_invariant]
    spec fn inv(self) -> bool {
        &&& text_set(self.set@) == slot_fingerprints(slot_views(self.outputs@))
        &&& slot_names_distinct(slot_views(self.outputs@))
        &&& forall|i: int, j: int| 0 <= i < j < self.set@.len() ==> self.set@[i]@ != self.set@[j]@
    }

    /// The fingerprints that the slots declare, each once.
    pub fn init_set(outputs: &Vec<(String, Output)>) -> (r: Vec<String>)
        ensures
            text_set(r@) == slot_fingerprints(slot_views(outputs@)),
            forall|i: int, j: int| 0 <= i < j < r.len() ==> r@[i]@ != r@[j]@,
    {
        let ghost slots = slot_views(outputs@);
        let mut r: Vec<String> = Vec::new();
        let n = outputs.len();
        for i in 0..n
            invariant
                n == outputs.len(),
                slots == slot_views(outputs@),
                text_set(r@) == slot_fingerprints(slots.take(i as int)),
                forall|a: int, b: int| 0 <= a < b < r.len() ==> r@[a]@ != r@[b]@,
        {
            let ghost before = r@;
            let ghost cur = slots.take(i as int);
            let ghost nxt = slots.take(i + 1);
            assert forall|f: Seq<char>|
                slot_fingerprints(nxt).contains(f) <==> (slot_fingerprints(cur).contains(f)
                    || slots[i as int].1.edid == Some(f)) by {
                if slot_fingerprints(nxt).contains(f) {
                    let w = choose|j: int| 0 <= j < nxt.len() && nxt[j].1.edid == Some(f);
                    if w < i {
                        assert(cur[w].1.edid == Some(f));
                    }
                }
                if slot_fingerprints(cur).contains(f) {
                    let w = choose|j: int| 0 <= j < cur.len() && cur[j].1.edid == Some(f);
                    assert(nxt[w].1.edid == Some(f));
                }
                if slots[i as int].1.edid == Some(f) {
                    assert(nxt[i as int].1.edid == Some(f));
                }
            }
            match &outputs[i].1.edid {
                Some(e) => {
                    if !contains_text(&r, e) {
                        r.push(e.clone());
                        assert forall|t: Seq<char>|
                            text_set(r@).contains(t) <==> (text_set(before).contains(t) || t
                                == e@) by {
                            if text_set(r@).contains(t) {
                                let w = choose|j: int| 0 <= j < r@.len() && r@[j]@ == t;
                                if w < before.len() {
                                    assert(before[w]@ == t);
                                }
                            }
                            if text_set(before).contains(t) {
                                let w = choose|j: int| 0 <= j < before.len() && before[j]@ == t;
                                assert(r@[w]@ == t);
                            }
                            if t == e@ {
                                assert(r@[before.len() as int]@ == t);
                            }
                        }
                    }
                    assert(text_set(r@) =~= slot_fingerprints(slots.take(i + 1)));
                },
                None => {
                    assert(text_set(r@) =~= slot_fingerprints(slots.take(i + 1)));
                },
            }
        }
        assert(slots.take(n as int) =~= slots);
        r
    }

    /// A profile with the given slots. Its identifier is the declared name,
    /// else the stem of the file it was read from.
    pub fn new(
        outputs: Vec<(String, Output)>,
        profile_name: Option<String>,
        file_stem: Option<String>,
    ) -> (p: Profile)
        requires
            slot_names_distinct(slot_views(outputs@)),
        ensures
            p@.slots == slot_views(outputs@),
            p@.profile_name == profile_name.deep_view(),
            p@.name == profile_identifier(profile_name.deep_view(), file_stem.deep_view()),
    {
        let set = Profile::init_set(&outputs);
        let name = match &profile_name {
            Some(n) => n.clone(),
            None => match file_stem {
                Some(s) => s,
                None => String::new(),
            },
        };
        Profile { outputs, profile_name, name, set }
    }

    /// Whether every fingerprint that the profile requires is among
    /// `available_edids`.
    pub fn is_available(&self, available_edids: &Vec<String>) -> (r: bool)
        ensures
            r == profile_available(self@, text_set(available_edids@)),
    {
        proof {
            use_type_invariant(self);
        }
        let n = self.set.len();
        for i in 0..n
            invariant
                n == self.set.len(),
                text_set(self.set@) == slot_fingerprints(self@.slots),
                forall|j: int|
                    0 <= j < i ==> text_set(available_edids@).contains(#[trigger] self.set@[j]@),
        {
            if !contains_text(available_edids, &self.set[i]) {
                assert(text_set(self.set@).contains(self.set@[i as int]@));
                return false;
            }
        }
        assert forall|f: Seq<char>| #[trigger]
            slot_fingerprints(self@.slots).contains(f) implies text_set(
            available_edids@,
        ).contains(f) by {
            assert(text_set(self.set@).contains(f));
            let w = choose|j: int| 0 <= j < self.set@.len() && self.set@[j]@ == f;
            assert(text_set(available_edids@).contains(self.set@[w]@));
        }
        true
    }

    /// The profile's identifier.
    pub fn name(&self) -> (r: &str)
        ensures
            r@ == self@.name,
    {
        self.name.as_str()
    }

    /// The name that the profile declares, if any.
    pub fn profile_name(&self) -> (r: &Option<String>)
        ensures
            r.deep_view() == self@.profile_name,
    {
        &self.profile_name
    }

    /// The fingerprints that the profile requires: exactly those that its
    /// slots declare, each once.
    pub fn required_fingerprints(&self) -> (r: &Vec<String>)
        ensures
            text_set(r@) == slot_fingerprints(self@.slots),
            forall|i: int, j: int| 0 <= i < j < r.len() ==> r@[i]@ != r@[j]@,
    {
        proof {
            use_type_invariant(self);
        }
        &self.set
    }

    /// The slots, as (slot name, output) pairs.
    pub fn slots(&self) -> (r: &Vec<(String, Output)>)
        ensures
            slot_views(r@) == self@.slots,
            slot_names_distinct(self@.slots),
    {
        proof {
            use_type_invariant(self);
        }
        &self.outputs
    }
}

/// Profiles ordered by identifier, ascending.
pub open spec fn sorted_by_name(s: Seq<Profile>) -> bool {
    forall|i: int, j: int| 0 <= i < j < s.len() ==> !text_lt(s[j]@.name, s[i]@.name)
}

/// The profile store: profiles in order of preference, which is the order of
/// their identifiers.
pub struct Config {
    profiles: Vec<Profile>,
}

impl View for Config {
    type V = Seq<Profile>;

    closed spec fn view(&self) -> Seq<Profile> {
        self.profiles@
    }
}

/// The first position of sorted `s` at which `p` can stand: every profile
/// before it has a smaller identifier.
fn insertion_point(s: &Vec<Profile>, p: &Profile) -> (r: usize)
    ensures
        r <= s.len(),
        forall|j: int| 0 <= j < r ==> text_lt(#[trigger] s@[j]@.name, p@.name),
        r < s.len() ==> !text_lt(s@[r as int]@.name, p@.name),
{
    let mut k: usize = 0;
    while k < s.len()
        invariant
            k <= s.len(),
            forall|j: int| 0 <= j < k ==> text_lt(#[trigger] s@[j]@.name, p@.name),
        decreases s.len() - k,
    {
        if !text_less(&s[k].name, &p.name) {
            return k;
        }
        k = k + 1;
    }
    k
}

impl Config {
    #[verifier::type_invariant]
    spec fn inv(self) -> bool {
        sorted_by_name(self.profiles@)
    }

    /// The store of the given profiles, ordered by identifier.
    pub fn new(profiles: Vec<Profile>) -> (c: Config)
        ensures
            c@.to_multiset() == profiles@.to_multiset(),
            sorted_by_name(c@),
    {
        let mut rest = profiles;
        let mut sorted: Vec<Profile> = Vec::new();
        while rest.len() > 0
            invariant
                sorted@.to_multiset().add(rest@.to_multiset()) == profiles@.to_multiset(),
                sorted_by_name(sorted@),
            decreases rest.len(),
        {
            let ghost before_rest = rest@;
            let ghost before = sorted@;
            let p = match rest.pop() {
                Some(p) => p,
                None => {
                    return Config { profiles: sorted };
                },
            };
            assert(before_rest =~= rest@.push(p));
            let pos = insertion_point(&sorted, &p);
            sorted.insert(pos, p);
            proof {
                vstd::seq_lib::to_multiset_insert(before, pos as int, p);
                assert forall|i: int, j: int| 0 <= i < j < sorted@.len() implies !text_lt(
                    sorted@[j]@.name,
                    sorted@[i]@.name,
                ) by {
                    if j == pos {
                        lemma_text_lt_asymmetric(sorted@[i]@.name, p@.name);
                    } else if i == pos {
                        lemma_text_le_transitive(p@.name, before[pos as int]@.name, sorted@[j]@.name);
                    }
                }
            }
        }
        assert(rest@.to_multiset() =~= Multiset::empty());
        Config { profiles: sorted }
    }

    /// The profiles, in order of preference.
    pub fn profiles(&self) -> (r: &Vec<Profile>)
        ensures
            r@ == self@,
            sorted_by_name(self@),
    {
        proof {
            use_type_invariant(self);
        }
        &self.profiles
    }
}

/// The required fingerprints of a profile do not depend on the order in which
/// its slots are listed.
pub proof fn lemma_slot_fingerprints_order_free(s1: SlotsView, s2: SlotsView)
    requires
        s1.to_multiset() == s2.to_multiset(),
    ensures
        slot_fingerprints(s1) == slot_fingerprints(s2),
{
    assert forall|f: Seq<char>| slot_fingerprints(s1).contains(f) implies slot_fingerprints(
        s2,
    ).contains(f) by {
        let w = choose|j: int| 0 <= j < s1.len() && s1[j].1.edid == Some(f);
        assert(s1.contains(s1[w]));
        assert(s1.to_multiset().count(s1[w]) > 0);
        assert(s2.to_multiset().count(s1[w]) > 0);
        assert(s2.contains(s1[w]));
    }
    assert forall|f: Seq<char>| slot_fingerprints(s2).contains(f) implies slot_fingerprints(
        s1,
    ).contains(f) by {
        let w = choose|j: int| 0 <= j < s2.len() && s2[j].1.edid == Some(f);
        assert(s2.contains(s2[w]));
        assert(s2.to_multiset().count(s2[w]) > 0);
        assert(s1.to_multiset().count(s2[w]) > 0);
        assert(s1.contains(s2[w]));
    }
    assert(slot_fingerprints(s1) =~= slot_fingerprints(s2));
}

/// Availability is monotonic: a profile available among some fingerprints
/// stays available when more fingerprints become available.
pub proof fn lemma_availability_monotonic(
    p: ProfileView,
    available: Set<Seq<char>>,
    more: Set<Seq<char>>,
)
    requires
        profile_available(p, available),
        available.subset_of(more),
    ensures
        profile_available(p, more),
{
}

} // verus!
