//! The data model: finishes, customer preference sets, the immutable problem
//! specification, and the (partial) solution nodes explored by the search.

use vstd::prelude::*;

verus! {

/// A paint finish. Every item is assigned exactly one of these two values.
#[derive(Clone, Copy, Debug, PartialEq, Eq, Structural)]
pub enum Finish {
    Matte,
    Gloss,
}

/// The cost contributed by a single choice: `Matte` costs one unit,
/// `Gloss` is free.
pub open spec fn finish_cost(f: Finish) -> nat {
    match f {
        Finish::Matte => 1,
        Finish::Gloss => 0,
    }
}

/// The accumulated cost of a sequence of choices: the number of `Matte`
/// entries it holds.
pub open spec fn cost_of(choices: Seq<Finish>) -> nat
    decreases choices.len(),
{
    if choices.len() == 0 {
        0
    } else {
        cost_of(choices.drop_last()) + finish_cost(choices.last())
    }
}

/// Appending one choice adds exactly that choice's cost.
pub proof fn lemma_cost_of_push(choices: Seq<Finish>, f: Finish)
    ensures
        cost_of(choices.push(f)) == cost_of(choices) + finish_cost(f),
{
    assert(choices.push(f).drop_last() =~= choices);
}

/// The accumulated cost never exceeds the number of choices made.
pub proof fn lemma_cost_of_le_len(choices: Seq<Finish>)
    ensures
        cost_of(choices) <= choices.len(),
    decreases choices.len(),
{
    if choices.len() > 0 {
        lemma_cost_of_le_len(choices.drop_last());
    }
}

/// Index of the first entry of `s` whose item identifier is `k`, or `-1`
/// when no entry names `k`.
pub open spec fn key_index(s: Seq<(usize, Finish)>, k: usize) -> int
    decreases s.len(),
{
    if s.len() == 0 {
        -1
    } else if s.first().0 == k {
        0
    } else {
        let rest = key_index(s.drop_first(), k);
        if rest == -1 {
            -1
        } else {
            rest + 1
        }
    }
}

/// What `key_index` finds: either no entry names `k`, or the returned index
/// is the first entry naming `k`.
pub proof fn lemma_key_index(s: Seq<(usize, Finish)>, k: usize)
    ensures
        key_index(s, k) == -1 || 0 <= key_index(s, k) < s.len(),
        key_index(s, k) == -1 ==> forall|j: int| 0 <= j < s.len() ==> (#[trigger] s[j]).0 != k,
        key_index(s, k) != -1 ==> s[key_index(s, k)].0 == k,
        key_index(s, k) != -1 ==> forall|j: int| 0 <= j < key_index(s, k) ==> (#[trigger] s[j]).0 != k,
    decreases s.len(),
{
    if s.len() == 0 {
    } else if s.first().0 == k {
    } else {
        lemma_key_index(s.drop_first(), k);
        assert(forall|j: int| 1 <= j < s.len() ==> #[trigger] s[j] == s.drop_first()[j - 1]);
    }
}

/// Map-style insertion into an entry sequence: if an entry already names
/// `k`, its finish is replaced in place; otherwise the pair is appended.
pub open spec fn pref_insert(s: Seq<(usize, Finish)>, k: usize, f: Finish) -> Seq<(usize, Finish)> {
    if key_index(s, k) == -1 {
        s.push((k, f))
    } else {
        s.update(key_index(s, k), (k, f))
    }
}

/// Every entry of an insertion's result is either the inserted pair or an
/// entry already present.
pub proof fn lemma_pref_insert_entries(s: Seq<(usize, Finish)>, k: usize, f: Finish)
    ensures
        forall|i: int|
            0 <= i < pref_insert(s, k, f).len() ==> #[trigger] pref_insert(s, k, f)[i] == (k, f)
                || (exists|j: int| 0 <= j < s.len() && s[j] == pref_insert(s, k, f)[i]),
{
    lemma_key_index(s, k);
}

/// No two entries name the same item identifier.
pub open spec fn unique_keys(s: Seq<(usize, Finish)>) -> bool {
    forall|i: int, j: int| 0 <= i < j < s.len() ==> (#[trigger] s[i]).0 != (#[trigger] s[j]).0
}

/// Every entry names an item identifier in `[1, n]`.
pub open spec fn keys_in_range(s: Seq<(usize, Finish)>, n: int) -> bool {
    forall|i: int| 0 <= i < s.len() ==> 1 <= (#[trigger] s[i]).0 && s[i].0 <= n
}

/// One customer's preference set: item identifiers mapped to the finish the
/// customer wants for that item. A customer is satisfied when any one of
/// its entries holds in the final assignment. Keys are unique; inserting an
/// already-present key replaces its finish.
#[derive(Debug, PartialEq)]
pub struct CustomerPreferences {
    entries: Vec<(usize, Finish)>,
}

impl View for CustomerPreferences {
    type V = Seq<(usize, Finish)>;

    closed spec fn view(&self) -> Seq<(usize, Finish)> {
        self.entries@
    }
}

impl CustomerPreferences {
    /// An empty preference set.
    pub fn new() -> (r: CustomerPreferences)
        ensures
            r@ =~= Seq::<(usize, Finish)>::empty(),
    {
        CustomerPreferences { entries: vec![] }
    }

    /// The number of entries.
    pub fn len(&self) -> (n: usize)
        ensures
            n == self@.len(),
    {
        self.entries.len()
    }

    /// The entry at position `i`.
    pub fn entry(&self, i: usize) -> (e: (usize, Finish))
        requires
            i < self@.len(),
        ensures
            e == self@[i as int],
    {
        self.entries[i]
    }

    /// Record that item `k` must have finish `f`, replacing any earlier
    /// entry for `k`.
    pub fn insert(&mut self, k: usize, f: Finish)
        ensures
            final(self)@ =~= pref_insert(old(self)@, k, f),
            unique_keys(old(self)@) ==> unique_keys(final(self)@),
    {
        let n = self.entries.len();
        let mut i: usize = 0;
        while i < n
            invariant
                self.entries@ == old(self)@,
                n == self.entries@.len(),
                i <= n,
                forall|j: int| 0 <= j < i ==> (#[trigger] self.entries@[j]).0 != k,
            decreases n - i,
        {
            if self.entries[i].0 == k {
                proof {
                    lemma_key_index(old(self)@, k);
                    assert(key_index(old(self)@, k) == i);
                }
                self.entries.set(i, (k, f));
                return ;
            }
            i = i + 1;
        }
        proof {
            lemma_key_index(old(self)@, k);
            assert(key_index(old(self)@, k) == -1);
        }
        self.entries.push((k, f));
    }
}

/// Entry `e` holds in the assignment `choices`: the item it names has been
/// decided and was given the finish the entry asks for.
pub open spec fn entry_matches(choices: Seq<Finish>, e: (usize, Finish)) -> bool {
    1 <= e.0 && e.0 <= choices.len() && choices[e.0 - 1] == e.1
}

/// One customer accepts the assignment: at least one of the customer's
/// entries holds in it (a disjunction across the customer's set).
pub open spec fn satisfies_customer(choices: Seq<Finish>, prefs: Seq<(usize, Finish)>) -> bool {
    exists|i: int| 0 <= i < prefs.len() && entry_matches(choices, #[trigger] prefs[i])
}

/// Every customer accepts the assignment.
pub open spec fn satisfies_all(choices: Seq<Finish>, prefs: Seq<Seq<(usize, Finish)>>) -> bool {
    forall|c: int| 0 <= c < prefs.len() ==> satisfies_customer(choices, #[trigger] prefs[c])
}

/// Mandatory entry `e` is violated by `choices`: the item it names has
/// already been decided, and differently from what the entry demands. An
/// undecided item never counts as a violation.
pub open spec fn essential_violated(choices: Seq<Finish>, e: (usize, Finish)) -> bool {
    1 <= e.0 && e.0 - 1 < choices.len() && choices[e.0 - 1] != e.1
}

/// Some mandatory entry is violated by `choices`.
pub open spec fn violates_essentials(choices: Seq<Finish>, ess: Seq<(usize, Finish)>) -> bool {
    exists|i: int| 0 <= i < ess.len() && essential_violated(choices, #[trigger] ess[i])
}

/// Every mandatory entry names a decided item and is given exactly the
/// finish it demands.
pub open spec fn respects_essentials(choices: Seq<Finish>, ess: Seq<(usize, Finish)>) -> bool {
    forall|i: int|
        0 <= i < ess.len() ==> entry_matches(choices, #[trigger] ess[i])
}

/// Some customer's preference set consists of exactly the entry `e`: the
/// disjunction degenerates to the single mandatory fact `e`.
pub open spec fn singleton_demands(prefs: Seq<Seq<(usize, Finish)>>, e: (usize, Finish)) -> bool {
    exists|c: int| 0 <= c < prefs.len() && (#[trigger] prefs[c]).len() == 1 && prefs[c][0] == e
}

/// Every entry of `ess` is the sole entry of some singleton preference set.
pub open spec fn essentials_sound(ess: Seq<(usize, Finish)>, prefs: Seq<Seq<(usize, Finish)>>) -> bool {
    forall|i: int| 0 <= i < ess.len() ==> singleton_demands(prefs, #[trigger] ess[i])
}

/// The mandatory constraints derived from a list of preference sets: each
/// customer holding exactly one entry turns that entry into a requirement,
/// scanning customers in list order so that a later singleton customer
/// overrides an earlier one naming the same item.
pub open spec fn essentials_of(prefs: Seq<Seq<(usize, Finish)>>) -> Seq<(usize, Finish)>
    decreases prefs.len(),
{
    if prefs.len() == 0 {
        Seq::empty()
    } else {
        let prev = essentials_of(prefs.drop_last());
        let c = prefs.last();
        if c.len() == 1 {
            pref_insert(prev, c[0].0, c[0].1)
        } else {
            prev
        }
    }
}

/// Law: every derived mandatory entry is exactly the sole entry of some
/// singleton customer. In particular, a preference set holding more than
/// one entry never contributes to the mandatory constraints.
pub proof fn lemma_essentials_from_singletons(prefs: Seq<Seq<(usize, Finish)>>, i: int)
    requires
        0 <= i < essentials_of(prefs).len(),
    ensures
        singleton_demands(prefs, essentials_of(prefs)[i]),
    decreases prefs.len(),
{
    let head = prefs.drop_last();
    let prev = essentials_of(head);
    let c = prefs.last();
    let e = essentials_of(prefs)[i];
    if c.len() == 1 {
        lemma_pref_insert_entries(prev, c[0].0, c[0].1);
        if e == (c[0].0, c[0].1) {
            assert(prefs[prefs.len() - 1].len() == 1 && prefs[prefs.len() - 1][0] == e);
        } else {
            let j = choose|j: int| 0 <= j < prev.len() && prev[j] == e;
            lemma_essentials_from_singletons(head, j);
            let cc = choose|cc: int|
                0 <= cc < head.len() && (#[trigger] head[cc]).len() == 1 && head[cc][0] == prev[j];
            assert(prefs[cc].len() == 1 && prefs[cc][0] == e);
        }
    } else {
        lemma_essentials_from_singletons(head, i);
        let cc = choose|cc: int|
            0 <= cc < head.len() && (#[trigger] head[cc]).len() == 1 && head[cc][0] == prev[i];
        assert(prefs[cc].len() == 1 && prefs[cc][0] == e);
    }
}

/// The immutable problem instance: how many items need a finish, every
/// customer's preference set, and the mandatory constraints derived from
/// the singleton preference sets.
#[derive(Debug, PartialEq)]
pub struct Specification {
    pub num_colors: usize,
    pub preferences: Vec<CustomerPreferences>,
    pub essentials: CustomerPreferences,
}

impl Specification {
    /// The preference sets as plain entry sequences.
    pub open spec fn prefs(&self) -> Seq<Seq<(usize, Finish)>> {
        self.preferences@.map_values(|p: CustomerPreferences| p@)
    }

    /// A valid instance: every preference entry names an item in
    /// `[1, num_colors]`, and every mandatory entry is the sole entry of
    /// some singleton customer (which the derivation rule guarantees).
    pub open spec fn wf(&self) -> bool {
        &&& forall|c: int|
            0 <= c < self.prefs().len() ==> keys_in_range(
                #[trigger] self.prefs()[c],
                self.num_colors as int,
            )
        &&& essentials_sound(self.essentials@, self.prefs())
    }

    /// Build an instance from the item count and the customers' preference
    /// sets, deriving the mandatory constraints eagerly. Returns `None`
    /// exactly when some preference entry names an item outside
    /// `[1, num_colors]`.
    pub fn new(num_colors: usize, preferences: Vec<CustomerPreferences>) -> (r: Option<
        Specification,
    >)
        ensures
            match r {
                Some(sp) => {
                    &&& sp.num_colors == num_colors
                    &&& sp.preferences == preferences
                    &&& sp.essentials@ =~= essentials_of(sp.prefs())
                    &&& sp.wf()
                },
                None => exists|c: int|
                    0 <= c < preferences@.len() && !keys_in_range(
                        (#[trigger] preferences@[c])@,
                        num_colors as int,
                    ),
            },
            r is Some <==> forall|c: int|
                0 <= c < preferences@.len() ==> keys_in_range(
                    (#[trigger] preferences@[c])@,
                    num_colors as int,
                ),
    {
        let ghost pview = preferences@.map_values(|p: CustomerPreferences| p@);
        let n = preferences.len();
        let mut c: usize = 0;
        while c < n
            invariant
                n == preferences@.len(),
                c <= n,
                pview == preferences@.map_values(|p: CustomerPreferences| p@),
                forall|cc: int| 0 <= cc < c ==> keys_in_range(#[trigger] pview[cc], num_colors as int),
            decreases n - c,
        {
            let p = &preferences[c];
            proof {
                assert(p@ == pview[c as int]);
            }
            let m = p.len();
            let mut i: usize = 0;
            while i < m
                invariant
                    pview == preferences@.map_values(|p: CustomerPreferences| p@),
                    c < preferences@.len(),
                    c < pview.len(),
                    p@ == pview[c as int],
                    m == p@.len(),
                    i <= m,
                    forall|j: int|
                        0 <= j < i ==> 1 <= (#[trigger] p@[j]).0 && p@[j].0 <= num_colors as int,
                decreases m - i,
            {
                let (k, _) = p.entry(i);
                if k < 1 || k > num_colors {
                    proof {
                        assert(!keys_in_range(pview[c as int], num_colors as int));
                        assert(pview[c as int] == preferences@[c as int]@);
                    }
                    return None;
                }
                i = i + 1;
            }
            proof {
                assert(keys_in_range(pview[c as int], num_colors as int));
            }
            c = c + 1;
        }

        let mut essentials = CustomerPreferences::new();
        let mut c: usize = 0;
        while c < n
            invariant
                n == preferences@.len(),
                c <= n,
                pview == preferences@.map_values(|p: CustomerPreferences| p@),
                forall|cc: int| 0 <= cc < n ==> keys_in_range(#[trigger] pview[cc], num_colors as int),
                essentials@ == essentials_of(pview.take(c as int)),
            decreases n - c,
        {
            let p = &preferences[c];
            proof {
                assert(p@ == pview[c as int]);
            }
            if p.len() == 1 {
                let (k, f) = p.entry(0);
                essentials.insert(k, f);
            }
            proof {
                assert(pview.take(c + 1 as int).drop_last() =~= pview.take(c as int));
                assert(pview.take(c + 1 as int).last() == pview[c as int]);
            }
            c = c + 1;
        }
        proof {
            assert(pview.take(n as int) =~= pview);
        }
        let sp = Specification { num_colors, preferences, essentials };
        proof {
            assert(sp.prefs() =~= pview);
            assert forall|cc: int| 0 <= cc < preferences@.len() implies keys_in_range(
                (#[trigger] preferences@[cc])@,
                num_colors as int,
            ) by {
                assert(pview[cc] == preferences@[cc]@);
            }
            assert forall|c: int| 0 <= c < sp.prefs().len() implies keys_in_range(
                #[trigger] sp.prefs()[c],
                sp.num_colors as int,
            ) by {
                assert(sp.prefs()[c] == pview[c]);
            }
            assert forall|i: int| 0 <= i < sp.essentials@.len() implies singleton_demands(
                sp.prefs(),
                #[trigger] sp.essentials@[i],
            ) by {
                lemma_essentials_from_singletons(pview, i);
                let c = choose|c: int|
                    0 <= c < pview.len() && (#[trigger] pview[c]).len() == 1 && pview[c][0]
                        == essentials_of(pview)[i];
                assert(sp.prefs()[c].len() == 1 && sp.prefs()[c][0] == sp.essentials@[i]);
            }
            assert(sp.wf());
        }
        Some(sp)
    }
}

/// A partial (or, once `choices` covers every item, complete) assignment of
/// finishes: position `i` of `choices` holds the finish chosen for item
/// `i + 1`, and `cost` is the accumulated cost of those choices.
#[derive(Debug, PartialEq, Eq)]
pub struct Solution {
    pub choices: Vec<Finish>,
    pub cost: usize,
}

impl Solution {
    /// The cost field agrees with the choices made so far.
    pub open spec fn wf(&self) -> bool {
        self.cost == cost_of(self.choices@)
    }

    /// The empty root node of the search: no choices, cost zero.
    pub fn new() -> (r: Solution)
        ensures
            r.choices@ =~= Seq::<Finish>::empty(),
            r.cost == 0,
            r.wf(),
    {
        Solution { choices: vec![], cost: 0 }
    }

    /// The number of items decided so far.
    pub fn len(&self) -> (n: usize)
        ensures
            n == self.choices@.len(),
    {
        self.choices.len()
    }

    /// A new, independently owned node extending this one by a single
    /// choice. The extension costs one unit for `Matte` and nothing for
    /// `Gloss`, so the cost never decreases along a search path.
    pub fn extend(&self, finish: Finish) -> (r: Solution)
        requires
            self.cost < usize::MAX,
        ensures
            r.choices@ =~= self.choices@.push(finish),
            r.cost == self.cost + finish_cost(finish),
            r.cost >= self.cost,
            self.wf() ==> r.wf(),
    {
        let mut choices = vstd::slice::slice_to_vec(self.choices.as_slice());
        let mut cost = self.cost;

        if finish == Finish::Matte {
            cost = cost + 1;
        }

        choices.push(finish);
        proof {
            lemma_cost_of_push(self.choices@, finish);
        }
        Solution { choices, cost }
    }

    /// Does every customer accept this assignment? Only meaningful once
    /// every item has been decided; every preference entry must name a
    /// decided item.
    pub fn complete(&self, spec: &Specification) -> (r: bool)
        requires
            forall|c: int|
                0 <= c < spec.prefs().len() ==> keys_in_range(
                    #[trigger] spec.prefs()[c],
                    self.choices@.len() as int,
                ),
        ensures
            r == satisfies_all(self.choices@, spec.prefs()),
    {
        let n = spec.preferences.len();
        let mut c: usize = 0;
        while c < n
            invariant
                n == spec.preferences@.len(),
                c <= n,
                forall|cc: int|
                    0 <= cc < spec.prefs().len() ==> keys_in_range(
                        #[trigger] spec.prefs()[cc],
                        self.choices@.len() as int,
                    ),
                forall|cc: int|
                    0 <= cc < c ==> satisfies_customer(self.choices@, #[trigger] spec.prefs()[cc]),
            decreases n - c,
        {
            let p = &spec.preferences[c];
            proof {
                assert(p@ == spec.prefs()[c as int]);
            }
            let m = p.len();
            let mut i: usize = 0;
            let mut found = false;
            while i < m
                invariant
                    p@ == spec.prefs()[c as int],
                    c < spec.prefs().len(),
                    keys_in_range(p@, self.choices@.len() as int),
                    m == p@.len(),
                    i <= m,
                    found ==> satisfies_customer(self.choices@, p@),
                    !found ==> forall|j: int|
                        0 <= j < i ==> !entry_matches(self.choices@, #[trigger] p@[j]),
                decreases m - i,
            {
                let (k, f) = p.entry(i);
                if !found && self.choices[k - 1] == f {
                    found = true;
                }
                i = i + 1;
            }
            if !found {
                return false;
            }
            c = c + 1;
        }
        true
    }

    /// Does this (possibly partial) assignment already contradict one of
    /// the mandatory constraints? Items not yet decided never count as a
    /// conflict, so a violation prunes a whole subtree at any depth.
    pub fn violates_contraints(&self, spec: &Specification) -> (r: bool)
        requires
            forall|i: int| 0 <= i < spec.essentials@.len() ==> 1 <= (#[trigger] spec.essentials@[i]).0,
        ensures
            r == violates_essentials(self.choices@, spec.essentials@),
    {
        let n = spec.essentials.len();
        let mut i: usize = 0;
        while i < n
            invariant
                n == spec.essentials@.len(),
                i <= n,
                forall|j: int|
                    0 <= j < spec.essentials@.len() ==> 1 <= (#[trigger] spec.essentials@[j]).0,
                forall|j: int|
                    0 <= j < i ==> !essential_violated(self.choices@, #[trigger] spec.essentials@[j]),
            decreases n - i,
        {
            let (k, f) = spec.essentials.entry(i);
            if k - 1 < self.choices.len() {
                if self.choices[k - 1] != f {
                    return true;
                }
            }
            i = i + 1;
        }
        false
    }
}

} // verus!
