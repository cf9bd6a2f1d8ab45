//! Configuration arguments: a mapping from flag to value, kept in ascending
//! flag order.

use vstd::prelude::*;

use crate::text::{lemma_text_lt_asymmetric, lemma_text_lt_total, lemma_text_lt_transitive, text_less, text_lt};

verus! {

/// Configuration arguments as flag/value pairs.
pub type ArgsView = Seq<(Seq<char>, Seq<char>)>;

/// The argument list of flag/value pairs: each flag followed by its value,
/// in the pairs' order.
pub open spec fn flat_args(args: ArgsView) -> Seq<Seq<char>> {
    Seq::new(2 * args.len(), |i: int| if i % 2 == 0 { args[i / 2].0 } else { args[i / 2].1 })
}

/// The flags strictly ascend, so each flag appears once.
pub open spec fn flags_ascending(args: ArgsView) -> bool {
    forall|i: int, j: int| 0 <= i < j < args.len() ==> text_lt(args[i].0, args[j].0)
}

/// Some pair carries the flag `f`.
pub open spec fn has_flag(args: ArgsView, f: Seq<char>) -> bool {
    exists|i: int| 0 <= i < args.len() && args[i].0 == f
}

/// The mapping from flag to value that the pairs stand for.
pub open spec fn arg_map(args: ArgsView) -> Map<Seq<char>, Seq<char>> {
    Map::new(
        |f: Seq<char>| has_flag(args, f),
        |f: Seq<char>| args[choose|i: int| 0 <= i < args.len() && args[i].0 == f].1,
    )
}

/// The mapping that inserting `pairs` one after another gives: a later value
/// for a flag replaces an earlier one.
pub open spec fn pairs_map(pairs: ArgsView) -> Map<Seq<char>, Seq<char>>
    decreases pairs.len(),
{
    if pairs.len() == 0 {
        Map::empty()
    } else {
        pairs_map(pairs.drop_last()).insert(pairs.last().0, pairs.last().1)
    }
}

proof fn lemma_text_lt_irreflexive(a: Seq<char>)
    ensures
        !text_lt(a, a),
{
    lemma_text_lt_asymmetric(a, a);
}

/// In ascending pairs the map sends each flag to the value next to it.
proof fn lemma_arg_map_entry(args: ArgsView, i: int)
    requires
        flags_ascending(args),
        0 <= i < args.len(),
    ensures
        arg_map(args).contains_key(args[i].0),
        arg_map(args)[args[i].0] == args[i].1,
{
    let f = args[i].0;
    assert(has_flag(args, f));
    let j = choose|j: int| 0 <= j < args.len() && args[j].0 == f;
    lemma_text_lt_irreflexive(f);
    if i < j {
        assert(text_lt(args[i].0, args[j].0));
    } else if j < i {
        assert(text_lt(args[j].0, args[i].0));
    }
}

/// The first position whose flag does not come before `flag`.
fn flag_position(entries: &Vec<(String, String)>, flag: &String) -> (r: usize)
    ensures
        r <= entries.len(),
        forall|j: int| 0 <= j < r ==> text_lt(#[trigger] entries.deep_view()[j].0, flag@),
        r < entries.len() ==> !text_lt(entries.deep_view()[r as int].0, flag@),
{
    let n = entries.len();
    let mut k: usize = 0;
    while k < n
        invariant
            n == entries.len(),
            k <= n,
            forall|j: int| 0 <= j < k ==> text_lt(#[trigger] entries.deep_view()[j].0, flag@),
        decreases n - k,
    {
        assert(entries.deep_view()[k as int].0 == entries@[k as int].0@);
        if !text_less(&entries[k].0, flag) {
            return k;
        }
        k = k + 1;
    }
    k
}

/// Flag/value arguments in ascending flag order, each flag once.
#[derive(Debug, PartialEq, Eq)]
pub struct Arguments {
    entries: Vec<(String, String)>,
}

impl View for Arguments {
    type V = ArgsView;

    closed spec fn view(&self) -> ArgsView {
        self.entries.deep_view()
    }
}

impl Arguments {
    #[verifier::type_invariant]
    spec fn inv(self) -> bool {
        flags_ascending(self.entries.deep_view())
    }

    /// No arguments.
    pub fn new() -> (a: Arguments)
        ensures
            a@ == Seq::<(Seq<char>, Seq<char>)>::empty(),
    {
        let a = Arguments { entries: Vec::new() };
        assert(a.entries.deep_view() =~= Seq::<(Seq<char>, Seq<char>)>::empty());
        a
    }

    /// Sets `flag` to `value`, replacing any value it had.
    pub fn insert(&mut self, flag: String, value: String)
        ensures
            flags_ascending(final(self)@),
            arg_map(final(self)@) == arg_map(old(self)@).insert(flag@, value@),
    {
        proof {
            use_type_invariant(&*self);
        }
        let ghost s = self.entries.deep_view();
        let ghost k = flag@;
        let ghost v = value@;
        let n = self.entries.len();
        let pos = flag_position(&self.entries, &flag);
        let same = pos < n && self.entries[pos].0 == flag;
        assert(pos < n ==> s[pos as int].0 == self.entries@[pos as int].0@);
        let mut entries: Vec<(String, String)> = Vec::new();
        for i in 0..n
            invariant
                n == self.entries.len(),
                s == self.entries.deep_view(),
                entries.deep_view() == s.take(i as int),
        {
            let pair = &self.entries[i];
            let copy = (pair.0.clone(), pair.1.clone());
            assert(copy.deep_view() == s[i as int]);
            let ghost before = entries.deep_view();
            entries.push(copy);
            assert(entries.deep_view() =~= before.push(s[i as int]));
            assert(s.take(i + 1) =~= s.take(i as int).push(s[i as int]));
        }
        assert(entries.deep_view() =~= s);
        let ghost t: ArgsView;
        if same {
            proof {
                t = s.update(pos as int, (k, v));
            }
            entries.set(pos, (flag, value));
            assert(entries.deep_view() =~= t);
            assert forall|i: int, j: int| 0 <= i < j < t.len() implies text_lt(t[i].0, t[j].0) by {
                assert(t[i].0 == s[i].0 && t[j].0 == s[j].0);
            }
            assert forall|f: Seq<char>|
                #![trigger arg_map(t).contains_key(f)]
                arg_map(t).contains_key(f) == arg_map(s).insert(k, v).contains_key(f) && (
                arg_map(t).contains_key(f) ==> arg_map(t)[f] == arg_map(s).insert(k, v)[f]) by {
                if has_flag(t, f) {
                    let i = choose|i: int| 0 <= i < t.len() && t[i].0 == f;
                    lemma_arg_map_entry(t, i);
                    if i != pos {
                        lemma_arg_map_entry(s, i);
                    }
                }
                if has_flag(s, f) {
                    let i = choose|i: int| 0 <= i < s.len() && s[i].0 == f;
                    assert(t[i].0 == f);
                }
            }
            assert(arg_map(t) =~= arg_map(s).insert(k, v));
            self.entries = entries;
        } else {
            proof {
                t = s.insert(pos as int, (k, v));
            }
            entries.insert(pos, (flag, value));
            assert(entries.deep_view() =~= t);
            proof {
                if pos < n {
                    lemma_text_lt_total(s[pos as int].0, k);
                }
                assert forall|j: int| pos <= j < s.len() implies text_lt(k, #[trigger] s[j].0) by {
                    if j > pos {
                        lemma_text_lt_transitive(k, s[pos as int].0, s[j].0);
                    }
                }
                assert forall|i: int, j: int| 0 <= i < j < t.len() implies text_lt(
                    t[i].0,
                    t[j].0,
                ) by {
                    if i < pos && j == pos {
                    } else if i < pos && j > pos {
                        assert(t[j] == s[j - 1]);
                        lemma_text_lt_transitive(s[i].0, k, s[j - 1].0);
                    } else if i == pos {
                        assert(t[j] == s[j - 1]);
                    } else if i > pos {
                        assert(t[i] == s[i - 1] && t[j] == s[j - 1]);
                    }
                }
                assert forall|f: Seq<char>|
                    #![trigger arg_map(t).contains_key(f)]
                    arg_map(t).contains_key(f) == arg_map(s).insert(k, v).contains_key(f) && (
                    arg_map(t).contains_key(f) ==> arg_map(t)[f] == arg_map(s).insert(k, v)[f]) by {
                    if has_flag(t, f) {
                        let i = choose|i: int| 0 <= i < t.len() && t[i].0 == f;
                        lemma_arg_map_entry(t, i);
                        if i < pos {
                            lemma_arg_map_entry(s, i);
                            lemma_text_lt_irreflexive(k);
                        } else if i > pos {
                            assert(t[i] == s[i - 1]);
                            lemma_arg_map_entry(s, i - 1);
                            lemma_text_lt_irreflexive(k);
                        }
                    }
                    if has_flag(s, f) {
                        let i = choose|i: int| 0 <= i < s.len() && s[i].0 == f;
                        if i < pos {
                            assert(t[i].0 == f);
                        } else {
                            assert(t[i + 1] == s[i]);
                        }
                    }
                    if f == k {
                        assert(t[pos as int].0 == f);
                    }
                }
                assert(arg_map(t) =~= arg_map(s).insert(k, v));
            }
            self.entries = entries;
        }
    }

    /// The arguments that inserting `pairs` in order gives.
    pub fn from_pairs(pairs: Vec<(String, String)>) -> (a: Arguments)
        ensures
            flags_ascending(a@),
            arg_map(a@) == pairs_map(pairs.deep_view()),
    {
        let ghost pv = pairs.deep_view();
        let mut a = Arguments::new();
        assert(arg_map(a@) =~= pairs_map(pv.take(0)));
        let n = pairs.len();
        for i in 0..n
            invariant
                n == pairs.len(),
                pv == pairs.deep_view(),
                flags_ascending(a@),
                arg_map(a@) == pairs_map(pv.take(i as int)),
        {
            let pair = &pairs[i];
            a.insert(pair.0.clone(), pair.1.clone());
            assert(pv.take(i + 1).drop_last() =~= pv.take(i as int));
        }
        assert(pv.take(n as int) =~= pv);
        a
    }

    /// The pairs, in ascending flag order.
    pub fn pairs(&self) -> (r: &Vec<(String, String)>)
        ensures
            r.deep_view() == self@,
            flags_ascending(self@),
    {
        proof {
            use_type_invariant(self);
        }
        &self.entries
    }

    /// The argument list: each flag followed by its value, flags ascending.
    pub fn flatten(&self) -> (r: Vec<String>)
        ensures
            r.deep_view() == flat_args(self@),
            flags_ascending(self@),
    {
        proof {
            use_type_invariant(self);
        }
        let args = &self.entries;
        let mut r: Vec<String> = Vec::new();
        let n = args.len();
        for i in 0..n
            invariant
                n == args.len(),
                r.len() == 2 * i,
                forall|j: int| 0 <= j < 2 * i ==> #[trigger] r@[j]@ == flat_args(args.deep_view())[j],
        {
            let pair = &args[i];
            r.push(pair.0.clone());
            r.push(pair.1.clone());
        }
        assert(r.deep_view() =~= flat_args(args.deep_view()));
        r
    }
}

} // verus!
