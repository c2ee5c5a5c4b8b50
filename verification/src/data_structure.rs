use std::collections::HashSet;
use vstd::assert_by_contradiction;
use vstd::prelude::*;

verus! {

broadcast use vstd::std_specs::hash::group_hash_axioms;

/// Whether `s` is strictly increasing, hence free of duplicates.
pub open spec fn sorted_strict(s: Seq<i32>) -> bool {
    forall|i: int, j: int| 0 <= i < j < s.len() ==> s[i] < s[j]
}

/// Whether the slice holds the value; exec counterpart of `Seq::contains`.
fn slice_contains_lit(v: &[i32], x: i32) -> (r: bool)
    ensures
        r == v@.contains(x),
{
    let mut i: usize = 0;
    while i < v.len()
        invariant
            i <= v@.len(),
            forall|k: int| 0 <= k < i ==> v@[k] != x,
        decreases v@.len() - i,
    {
        if v[i] == x {
            return true;
        }
        i = i + 1;
    }
    false
}

/// A copy of a boolean vector.
fn clone_bools(v: &Vec<bool>) -> (r: Vec<bool>)
    ensures
        r@ == v@,
{
    let mut out: Vec<bool> = Vec::new();
    let mut i: usize = 0;
    while i < v.len()
        invariant
            i <= v@.len(),
            out@ =~= v@.take(i as int),
        decreases v@.len() - i,
    {
        out.push(v[i]);
        i = i + 1;
    }
    proof {
        assert(out@ =~= v@);
    }
    out
}

/// Inserts `x` into a strictly sorted vector, keeping it strictly sorted;
/// a value already present is left alone.
fn insert_sorted(v: &mut Vec<i32>, x: i32)
    requires
        sorted_strict(old(v)@),
    ensures
        sorted_strict(final(v)@),
        final(v)@.to_set() == old(v)@.to_set().insert(x),
{
    let mut i: usize = 0;
    while i < v.len() && v[i] < x
        invariant
            i <= v@.len(),
            sorted_strict(v@),
            v == old(v),
            forall|k: int| 0 <= k < i ==> v@[k] < x,
        decreases v@.len() - i,
    {
        i = i + 1;
    }
    if i < v.len() && v[i] == x {
        proof {
            assert(v@.contains(x));
            assert(v@.to_set() =~= v@.to_set().insert(x));
        }
        return ;
    }
    let ghost before = v@;
    v.insert(i, x);
    proof {
        let after = v@;
        assert(after == before.insert(i as int, x));
        assert forall|p: int, q: int| 0 <= p < q < after.len() implies after[p] < after[q] by {
            if q < i {
                assert(after[p] == before[p] && after[q] == before[q]);
            } else if p > i {
                assert(after[p] == before[p - 1] && after[q] == before[q - 1]);
            } else if p == i {
                assert(after[p] == x && after[q] == before[q - 1]);
                assert(before[q - 1] != x);
                assert(i < before.len() ==> before[i as int] > x || before[i as int] == x);
                if i < before.len() {
                    assert(before[i as int] > x);
                    assert(q - 1 >= i);
                    assert(before[q - 1] >= before[i as int]);
                }
            } else if q == i {
                assert(after[q] == x && after[p] == before[p]);
                assert(before[p] < x);
            } else {
                // p < i < q
                assert(after[p] == before[p] && after[q] == before[q - 1]);
                assert(before[p] < x);
                if i < before.len() {
                    assert(before[q - 1] >= before[i as int]);
                }
                assert(q - 1 >= i);
                assert(before[q - 1] > x || before[q - 1] == before[i as int] || q - 1 > i);
                if q - 1 == i {
                    assert(before[q - 1] > x);
                } else {
                    assert(before[q - 1] > before[i as int]);
                    assert(before[i as int] > x);
                }
            }
        }
        assert forall|e: i32| after.to_set().contains(e) <==> before.to_set().contains(e) || e
            == x by {
            if after.contains(e) {
                let w = choose|w: int| 0 <= w < after.len() && after[w] == e;
                if w < i {
                    assert(before[w] == e);
                } else if w > i {
                    assert(before[w - 1] == e);
                }
            }
            if before.contains(e) {
                let w = choose|w: int| 0 <= w < before.len() && before[w] == e;
                if w < i {
                    assert(after[w] == e);
                } else {
                    assert(after[w + 1] == e);
                }
            }
            if e == x {
                assert(after[i as int] == x);
            }
        }
        assert(after.to_set() =~= before.to_set().insert(x));
    }
}

/// Represents a (partial) configuration: selected features appear as
/// positive literal values, deselected features as negative ones.
#[derive(Debug, Clone)]
pub struct Config {
    /// A vector of selected features (positive) and deselected features (negative).
    literals: Vec<i32>,
    pub sat_state: Option<Vec<bool>>,
    sat_state_complete: bool,
}

impl Config {
    /// The literals this configuration holds.
    pub closed spec fn spec_literals(self) -> Seq<i32> {
        self.literals@
    }

    /// Whether the cached sat state is known to be up to date.
    pub closed spec fn spec_complete(self) -> bool {
        self.sat_state_complete
    }

    /// The cached sat state, if any.
    pub closed spec fn spec_sat_state(self) -> Option<Vec<bool>> {
        self.sat_state
    }

    /// Creates a new config with the given literals.
    pub fn from(literals: &[i32]) -> (r: Self)
        ensures
            r.spec_literals() == literals@,
            r.spec_sat_state() is None,
            !r.spec_complete(),
    {
        let mut own: Vec<i32> = Vec::new();
        let mut i: usize = 0;
        while i < literals.len()
            invariant
                i <= literals@.len(),
                own@ =~= literals@.take(i as int),
            decreases literals@.len() - i,
        {
            own.push(literals[i]);
            i = i + 1;
        }
        proof {
            assert(own@ =~= literals@);
        }
        Config { literals: own, sat_state: None, sat_state_complete: false }
    }

    /// Creates a new config from two disjoint configs.  The literal lists are
    /// concatenated; of two cached sat states the one of the larger config is
    /// kept, because two states cannot be combined without losing the upward
    /// propagation of their marks.
    pub fn from_disjoint(left: &Self, right: &Self) -> (r: Self)
        ensures
            r.spec_literals() == left.spec_literals() + right.spec_literals(),
            !r.spec_complete(),
            (match (left.spec_sat_state(), right.spec_sat_state()) {
                (Some(ls), Some(rs)) => r.spec_sat_state() is Some && r.spec_sat_state().unwrap()@
                    == (if left.spec_literals().len() >= right.spec_literals().len() {
                    ls@
                } else {
                    rs@
                }),
                (Some(ls), None) => r.spec_sat_state() is Some && r.spec_sat_state().unwrap()@
                    == ls@,
                (None, Some(rs)) => r.spec_sat_state() is Some && r.spec_sat_state().unwrap()@
                    == rs@,
                (None, None) => r.spec_sat_state() is None,
            }),
    {
        let mut literals: Vec<i32> = Vec::new();
        let mut i: usize = 0;
        while i < left.literals.len()
            invariant
                i <= left.literals@.len(),
                literals@ =~= left.literals@.take(i as int),
            decreases left.literals@.len() - i,
        {
            literals.push(left.literals[i]);
            i = i + 1;
        }
        proof {
            assert(literals@ =~= left.literals@);
        }
        let mut j: usize = 0;
        while j < right.literals.len()
            invariant
                j <= right.literals@.len(),
                literals@ =~= left.literals@ + right.literals@.take(j as int),
            decreases right.literals@.len() - j,
        {
            literals.push(right.literals[j]);
            j = j + 1;
        }
        proof {
            assert(literals@ =~= left.literals@ + right.literals@);
        }
        let sat_state: Option<Vec<bool>> = match (&left.sat_state, &right.sat_state) {
            (Some(ls), Some(rs)) => {
                if left.literals.len() >= right.literals.len() {
                    Some(clone_bools(ls))
                } else {
                    Some(clone_bools(rs))
                }
            },
            (Some(ls), None) => Some(clone_bools(ls)),
            (None, Some(rs)) => Some(clone_bools(rs)),
            (None, None) => None,
        };
        Config { literals, sat_state, sat_state_complete: false }
    }

    /// Extends the literals, then keeps them sorted and free of duplicates.
    pub fn extend(&mut self, additional: &[i32])
        ensures
            sorted_strict(final(self).spec_literals()),
            final(self).spec_literals().to_set() == old(self).spec_literals().to_set() + additional@.to_set(),
            !final(self).spec_complete(),
            final(self).spec_sat_state() == old(self).spec_sat_state(),
    {
        self.sat_state_complete = false;
        let mut merged: Vec<i32> = Vec::new();
        let mut i: usize = 0;
        while i < self.literals.len()
            invariant
                i <= self.literals@.len(),
                sorted_strict(merged@),
                merged@.to_set() == self.literals@.take(i as int).to_set(),
            decreases self.literals@.len() - i,
        {
            let ghost pre = self.literals@.take(i as int);
            insert_sorted(&mut merged, self.literals[i]);
            proof {
                assert(self.literals@.take(i + 1) =~= pre.push(self.literals@[i as int]));
                crate::data_structure::lemma_to_set_push(pre, self.literals@[i as int]);
            }
            i = i + 1;
        }
        proof {
            assert(self.literals@.take(self.literals@.len() as int) =~= self.literals@);
        }
        let mut j: usize = 0;
        while j < additional.len()
            invariant
                j <= additional@.len(),
                sorted_strict(merged@),
                merged@.to_set() == self.literals@.to_set() + additional@.take(j as int).to_set(),
            decreases additional@.len() - j,
        {
            let ghost pre = additional@.take(j as int);
            insert_sorted(&mut merged, additional[j]);
            proof {
                assert(additional@.take(j + 1) =~= pre.push(additional@[j as int]));
                crate::data_structure::lemma_to_set_push(pre, additional@[j as int]);
                assert(self.literals@.to_set() + pre.to_set().insert(additional@[j as int])
                    =~= (self.literals@.to_set() + pre.to_set()).insert(additional@[j as int]));
            }
            j = j + 1;
        }
        proof {
            assert(additional@.take(additional@.len() as int) =~= additional@);
        }
        self.literals = merged;
    }

    /// Returns a slice of this config's literals.
    pub fn get_literals(&self) -> (r: &[i32])
        ensures
            r@ == self.spec_literals(),
    {
        self.literals.as_slice()
    }

    /// Returns the cached sat state if there is one.
    pub fn get_sat_state(&self) -> (r: Option<&Vec<bool>>)
        ensures
            match r {
                Some(v) => self.spec_sat_state() == Some(*v),
                None => self.spec_sat_state() is None,
            },
    {
        self.sat_state.as_ref()
    }

    /// Sets the cached sat state and marks it complete.
    pub fn set_sat_state(&mut self, sat_state: Vec<bool>)
        ensures
            final(self).spec_sat_state() == Some(sat_state),
            final(self).spec_complete(),
            final(self).spec_literals() == old(self).spec_literals(),
    {
        self.sat_state_complete = true;
        self.sat_state = Some(sat_state);
    }

    /// Returns whether the cached sat state is complete (true) or incomplete (false).
    pub fn is_sat_state_complete(&self) -> (r: bool)
        ensures
            r == self.spec_complete(),
    {
        self.sat_state_complete
    }

    /// Refreshes the cached sat solver state with a freshly solved one.  The
    /// caller runs the solver over this config's literals and hands the
    /// resulting per-node state in; a cache that is already complete is kept.
    pub fn update_sat_state(&mut self, solved_state: Vec<bool>)
        ensures
            old(self).spec_complete() ==> *final(self) == *old(self),
            !old(self).spec_complete() ==> final(self).spec_sat_state() == Some(solved_state)
                && final(self).spec_complete() && final(self).spec_literals() == old(
                self,
            ).spec_literals(),
    {
        if self.is_sat_state_complete() {
            return ;
        }
        self.set_sat_state(solved_state);
    }

    /// Checks if this config obviously conflicts with the interaction: the
    /// config contains a literal whose negation the interaction holds.
    pub fn conflicts_with(&self, interaction: &[i32]) -> (r: bool)
        requires
            forall|k: int| 0 <= k < interaction@.len() ==> interaction@[k] != i32::MIN,
        ensures
            r == exists|k: int|
                0 <= k < interaction@.len() && self.spec_literals().contains(((-interaction@[k]) as i32)),
    {
        let mut i: usize = 0;
        while i < interaction.len()
            invariant
                i <= interaction@.len(),
                forall|k: int| 0 <= k < interaction@.len() ==> interaction@[k] != i32::MIN,
                forall|k: int| 0 <= k < i ==> !self.spec_literals().contains(((-interaction@[k]) as i32)),
            decreases interaction@.len() - i,
        {
            if slice_contains_lit(self.literals.as_slice(), -interaction[i]) {
                return true;
            }
            i = i + 1;
        }
        false
    }

    /// Checks if this config covers the given interaction: every literal of
    /// the interaction appears among the config's literals.
    pub fn covers(&self, interaction: &[i32]) -> (r: bool)
        ensures
            r == forall|k: int|
                0 <= k < interaction@.len() ==> self.spec_literals().contains(interaction@[k]),
    {
        let mut i: usize = 0;
        while i < interaction.len()
            invariant
                i <= interaction@.len(),
                forall|k: int| 0 <= k < i ==> self.spec_literals().contains(interaction@[k]),
            decreases interaction@.len() - i,
        {
            if !slice_contains_lit(self.literals.as_slice(), interaction[i]) {
                return false;
            }
            i = i + 1;
        }
        true
    }
}

impl PartialEq for Config {
    /// Two configs are equal when they hold the same literals, whatever
    /// their cached sat states.
    fn eq(&self, other: &Self) -> (r: bool)
    {
        let a = self.get_literals();
        let b = other.get_literals();
        if a.len() != b.len() {
            return false;
        }
        let mut i: usize = 0;
        while i < a.len()
            invariant
                a@ == self.spec_literals(),
                b@ == other.spec_literals(),
                a@.len() == b@.len(),
                i <= a@.len(),
                forall|k: int| 0 <= k < i ==> a@[k] == b@[k],
            decreases a@.len() - i,
        {
            if a[i] != b[i] {
                return false;
            }
            i = i + 1;
        }
        proof {
            assert(self.spec_literals() =~= other.spec_literals());
        }
        true
    }
}

impl vstd::std_specs::cmp::PartialEqSpecImpl for Config {
    open spec fn obeys_eq_spec() -> bool {
        true
    }

    open spec fn eq_spec(&self, other: &Config) -> bool {
        self.spec_literals() == other.spec_literals()
    }
}

/// Pushing an element adds exactly it to the set of a sequence.
pub proof fn lemma_to_set_push(s: Seq<i32>, x: i32)
    ensures
        s.push(x).to_set() == s.to_set().insert(x),
{
    let p = s.push(x);
    assert forall|e: i32| p.to_set().contains(e) <==> s.to_set().contains(e) || e == x by {
        if p.contains(e) {
            let w = choose|w: int| 0 <= w < p.len() && p[w] == e;
            if w < s.len() {
                assert(s[w] == e);
            }
        }
        if s.contains(e) {
            let w = choose|w: int| 0 <= w < s.len() && s[w] == e;
            assert(p[w] == e);
        }
        if e == x {
            assert(p[s.len() as int] == x);
        }
    }
    assert(p.to_set() =~= s.to_set().insert(x));
}

/// The variable id of a signed literal value, as an unsigned integer.
pub open spec fn spec_var_u32(l: i32) -> u32 {
    if l < 0 {
        (-(l as int)) as u32
    } else {
        l as u32
    }
}

/// Exec counterpart of [`spec_var_u32`].
pub fn var_u32(l: i32) -> (v: u32)
    ensures
        v == spec_var_u32(l),
{
    if l < 0 {
        (-(l as i64)) as u32
    } else {
        l as u32
    }
}

/// Relies on Vec::from_iter over HashSet::iter: the vector lists each
/// element of the set exactly once.
#[verifier::external_body]
fn hash_set_to_vec(s: &HashSet<u32>) -> (r: Vec<u32>)
    ensures
        r@.to_set() == s@,
        r@.no_duplicates(),
{
    Vec::from_iter(s.iter().copied())
}

/// Whether a config's literals include every literal of the interaction.
pub open spec fn spec_covers(c: Config, interaction: Seq<i32>) -> bool {
    forall|j: int|
        0 <= j < interaction.len() ==> c.spec_literals().contains(#[trigger] interaction[j])
}

/// The union of the literal sets of a sequence of configs.
pub open spec fn lits_union(cs: Seq<Config>) -> Set<i32>
    decreases cs.len(),
{
    if cs.len() == 0 {
        Set::empty()
    } else {
        lits_union(cs.drop_last()) + cs.last().spec_literals().to_set()
    }
}

/// The union of the variable sets of a sequence of configs: the variable of
/// every literal occurring in one of them.
pub open spec fn vars_union(cs: Seq<Config>) -> Set<u32>
    decreases cs.len(),
{
    if cs.len() == 0 {
        Set::empty()
    } else {
        vars_union(cs.drop_last()) + cs.last().spec_literals().map_values(
            |l: i32| spec_var_u32(l),
        ).to_set()
    }
}

/// The union of the variable sets of a sequence of samples.
pub open spec fn sample_vars_union(ss: Seq<&Sample>) -> Set<u32>
    decreases ss.len(),
{
    if ss.len() == 0 {
        Set::empty()
    } else {
        sample_vars_union(ss.drop_last()) + ss.last().spec_vars()
    }
}

/// Represents a (partial) sample of configs.  The sample differentiates
/// between complete and partial configs: a config is complete in the context
/// of this sample if it contains as many literals as the sample has
/// variables; otherwise it is partial.
#[derive(Debug)]
pub struct Sample {
    /// Configs that contain all variables of this sample.
    pub complete_configs: Vec<Config>,
    /// Configs that do not contain all variables of this sample.
    pub partial_configs: Vec<Config>,
    /// The variables that configs of this sample may contain.
    vars: HashSet<u32>,
    /// The literals that actually occur in this sample.
    literals: HashSet<i32>,
}

impl Sample {
    /// The variables this sample defines.
    pub closed spec fn spec_vars(self) -> Set<u32> {
        self.vars@
    }

    /// The literals occurring in this sample.
    pub closed spec fn spec_literals(self) -> Set<i32> {
        self.literals@
    }

    /// The complete configs, as a sequence.
    pub closed spec fn spec_complete_configs(self) -> Seq<Config> {
        self.complete_configs@
    }

    /// The partial configs, as a sequence.
    pub closed spec fn spec_partial_configs(self) -> Seq<Config> {
        self.partial_configs@
    }

    /// All configs of the sample, complete ones first.
    pub open spec fn spec_configs(self) -> Seq<Config> {
        self.spec_complete_configs() + self.spec_partial_configs()
    }

    /// Whether a config counts as complete for this sample.
    pub open spec fn spec_is_complete(self, c: Config) -> bool {
        c.spec_literals().len() == self.spec_vars().len()
    }

    /// Create an empty sample that may contain the given variables.
    pub fn new(vars: HashSet<u32>) -> (r: Self)
        ensures
            r.spec_vars() == vars@,
            r.spec_literals() == Set::<i32>::empty(),
            r.spec_complete_configs().len() == 0,
            r.spec_partial_configs().len() == 0,
    {
        Self {
            complete_configs: Vec::new(),
            partial_configs: Vec::new(),
            vars,
            literals: HashSet::new(),
        }
    }

    /// Create a new sample that will contain the given configs; its variables
    /// are those occurring, under either polarity, in the configs.
    pub fn new_from_configs(configs: Vec<Config>) -> (r: Self)
        ensures
            r.spec_literals() == lits_union(configs@),
            r.spec_vars() == vars_union(configs@),
            r.spec_complete_configs() == configs@.filter(
                |c: Config| c.spec_literals().len() == r.spec_vars().len(),
            ),
            r.spec_partial_configs() == configs@.filter(
                |c: Config| c.spec_literals().len() != r.spec_vars().len(),
            ),
    {
        let ghost f = |l: i32| spec_var_u32(l);
        let mut vars: HashSet<u32> = HashSet::new();
        let mut k: usize = 0;
        proof {
            assert(configs@.take(0) =~= Seq::<Config>::empty());
        }
        while k < configs.len()
            invariant
                k <= configs@.len(),
                f == (|l: i32| spec_var_u32(l)),
                vars@ == vars_union(configs@.take(k as int)),
            decreases configs@.len() - k,
        {
            let c = &configs[k];
            let ghost prior = vars@;
            let mut j: usize = 0;
            proof {
                assert(c.spec_literals().take(0).map_values(f) =~= Seq::<u32>::empty());
                assert(Seq::<u32>::empty().to_set() =~= Set::<u32>::empty());
                assert(prior + Seq::<u32>::empty().to_set() =~= prior);
            }
            while j < c.literals.len()
                invariant
                    k < configs@.len(),
                    j <= c.literals@.len(),
                    c == &configs@[k as int],
                    f == (|l: i32| spec_var_u32(l)),
                    vars@ == prior + c.spec_literals().take(j as int).map_values(f).to_set(),
                decreases c.literals@.len() - j,
            {
                vars.insert(var_u32(c.literals[j]));
                proof {
                    let pre = c.spec_literals().take(j as int).map_values(f);
                    assert(c.spec_literals().take(j + 1).map_values(f) =~= pre.push(
                        f(c.spec_literals()[j as int]),
                    ));
                    lemma_to_set_push_u32(pre, f(c.spec_literals()[j as int]));
                    assert(prior + pre.to_set().insert(f(c.spec_literals()[j as int])) =~= (prior
                        + pre.to_set()).insert(spec_var_u32(c.literals@[j as int])));
                }
                j = j + 1;
            }
            k = k + 1;
            proof {
                assert(c.spec_literals().take(c.spec_literals().len() as int) =~= c.spec_literals());
                assert(configs@.take(k as int).drop_last() =~= configs@.take(k - 1));
                assert(configs@.take(k as int).last() == configs@[k - 1]);
            }
        }
        proof {
            assert(configs@.take(configs@.len() as int) =~= configs@);
        }
        let mut sample = Self {
            complete_configs: Vec::new(),
            partial_configs: Vec::new(),
            vars,
            literals: HashSet::new(),
        };
        sample.extend(configs);
        proof {
            reveal_with_fuel(Seq::filter, 2);
            assert(Set::<i32>::empty() + lits_union(configs@) =~= lits_union(configs@));
            assert(Seq::<Config>::empty() + configs@.filter(
                |c: Config| c.spec_literals().len() == sample.spec_vars().len(),
            ) =~= configs@.filter(
                |c: Config| c.spec_literals().len() == sample.spec_vars().len(),
            ));
            assert(Seq::<Config>::empty() + configs@.filter(
                |c: Config| c.spec_literals().len() != sample.spec_vars().len(),
            ) =~= configs@.filter(
                |c: Config| c.spec_literals().len() != sample.spec_vars().len(),
            ));
        }
        sample
    }

    /// Create an empty sample over the union of the samples' variables.
    pub fn new_from_samples(samples: &[&Self]) -> (r: Self)
        ensures
            r.spec_vars() == sample_vars_union(samples@),
            r.spec_literals() == Set::<i32>::empty(),
            r.spec_complete_configs().len() == 0,
            r.spec_partial_configs().len() == 0,
    {
        let mut vars: HashSet<u32> = HashSet::new();
        let mut k: usize = 0;
        proof {
            assert(samples@.take(0) =~= Seq::<&Sample>::empty());
        }
        while k < samples.len()
            invariant
                k <= samples@.len(),
                vars@ == sample_vars_union(samples@.take(k as int)),
            decreases samples@.len() - k,
        {
            let s: &Sample = samples[k];
            let ghost prior = vars@;
            let list = hash_set_to_vec(&s.vars);
            let mut j: usize = 0;
            proof {
                assert(list@.take(0) =~= Seq::<u32>::empty());
                assert(Seq::<u32>::empty().to_set() =~= Set::<u32>::empty());
                assert(prior + Seq::<u32>::empty().to_set() =~= prior);
            }
            while j < list.len()
                invariant
                    j <= list@.len(),
                    list@.to_set() == s.vars@,
                    vars@ == prior + list@.take(j as int).to_set(),
                decreases list@.len() - j,
            {
                vars.insert(list[j]);
                proof {
                    assert(list@.take(j + 1) =~= list@.take(j as int).push(list@[j as int]));
                    lemma_to_set_push_u32(list@.take(j as int), list@[j as int]);
                    assert(prior + list@.take(j as int).to_set().insert(list@[j as int]) =~= (prior
                        + list@.take(j as int).to_set()).insert(list@[j as int]));
                }
                j = j + 1;
            }
            k = k + 1;
            proof {
                assert(list@.take(list@.len() as int) =~= list@);
                assert(samples@.take(k as int).drop_last() =~= samples@.take(k - 1));
                assert(samples@.take(k as int).last() == samples@[k - 1]);
            }
        }
        proof {
            assert(samples@.take(samples@.len() as int) =~= samples@);
        }
        Self::new(vars)
    }

    /// Create an empty sample that may contain the given variables and will
    /// certainly contain the given literals.  Only use this if you know that
    /// the configs you are going to add to this sample contain the literals.
    pub fn new_with_literals(vars: HashSet<u32>, literals: HashSet<i32>) -> (r: Self)
        ensures
            r.spec_vars() == vars@,
            r.spec_literals() == literals@,
            r.spec_complete_configs().len() == 0,
            r.spec_partial_configs().len() == 0,
    {
        Self { complete_configs: Vec::new(), partial_configs: Vec::new(), vars, literals }
    }

    /// Create an empty sample with no variables defined.
    pub fn empty() -> (r: Self)
        ensures
            r.spec_vars() == Set::<u32>::empty(),
            r.spec_literals() == Set::<i32>::empty(),
            r.spec_complete_configs().len() == 0,
            r.spec_partial_configs().len() == 0,
    {
        Self {
            complete_configs: Vec::new(),
            partial_configs: Vec::new(),
            vars: HashSet::new(),
            literals: HashSet::new(),
        }
    }

    /// Create a sample that only contains a single configuration with a
    /// single literal.
    pub fn from_literal(literal: i32) -> (r: Self)
        ensures
            r.spec_vars() == Set::<u32>::empty().insert(spec_var_u32(literal)),
            r.spec_literals() == Set::<i32>::empty().insert(literal),
            r.spec_complete_configs().len() == 1,
            r.spec_complete_configs()[0].spec_literals() == seq![literal],
            r.spec_partial_configs().len() == 0,
    {
        let mut vars: HashSet<u32> = HashSet::new();
        vars.insert(var_u32(literal));
        let mut sample = Self::new(vars);
        let slice: [i32; 1] = [literal];
        let config = Config::from(&slice);
        proof {
            assert(config.spec_literals() =~= seq![literal]);
        }
        sample.add_complete(config);
        proof {
            assert(seq![literal].to_set() =~= Set::<i32>::empty().insert(literal));
            assert(Set::<i32>::empty() + seq![literal].to_set() =~= Set::<i32>::empty().insert(
                literal,
            ));
            assert(Set::<u32>::empty().insert(spec_var_u32(literal)) =~= sample.spec_vars());
        }
        sample
    }

    /// The set of literals occurring in this sample.
    pub fn get_literals(&self) -> (r: &HashSet<i32>)
        ensures
            r@ == self.spec_literals(),
    {
        &self.literals
    }

    /// Adds a config to this sample, treating it as complete without
    /// checking that it actually is.
    pub fn add_complete(&mut self, config: Config)
        ensures
            final(self).spec_complete_configs() == old(self).spec_complete_configs().push(config),
            final(self).spec_partial_configs() == old(self).spec_partial_configs(),
            final(self).spec_vars() == old(self).spec_vars(),
            final(self).spec_literals() == old(self).spec_literals()
                + config.spec_literals().to_set(),
    {
        let mut j: usize = 0;
        proof {
            assert(config.spec_literals().take(0) =~= Seq::<i32>::empty());
            assert(Seq::<i32>::empty().to_set() =~= Set::<i32>::empty());
            assert(old(self).literals@ + Set::<i32>::empty() =~= old(self).literals@);
        }
        while j < config.literals.len()
            invariant
                j <= config.literals@.len(),
                self.complete_configs@ == old(self).complete_configs@,
                self.partial_configs@ == old(self).partial_configs@,
                self.vars@ == old(self).vars@,
                self.literals@ == old(self).literals@ + config.spec_literals().take(
                    j as int,
                ).to_set(),
            decreases config.literals@.len() - j,
        {
            self.literals.insert(config.literals[j]);
            proof {
                let pre = config.spec_literals().take(j as int);
                assert(config.spec_literals().take(j + 1) =~= pre.push(
                    config.spec_literals()[j as int],
                ));
                lemma_to_set_push(pre, config.spec_literals()[j as int]);
                assert(old(self).literals@ + pre.to_set().insert(config.spec_literals()[j as int])
                    =~= (old(self).literals@ + pre.to_set()).insert(config.literals@[j as int]));
            }
            j = j + 1;
        }
        proof {
            assert(config.spec_literals().take(config.spec_literals().len() as int)
                =~= config.spec_literals());
        }
        self.complete_configs.push(config);
    }

    /// Adds a config to this sample, treating it as partial without
    /// checking that it actually is.
    pub fn add_partial(&mut self, config: Config)
        ensures
            final(self).spec_partial_configs() == old(self).spec_partial_configs().push(config),
            final(self).spec_complete_configs() == old(self).spec_complete_configs(),
            final(self).spec_vars() == old(self).spec_vars(),
            final(self).spec_literals() == old(self).spec_literals()
                + config.spec_literals().to_set(),
    {
        let mut j: usize = 0;
        proof {
            assert(config.spec_literals().take(0) =~= Seq::<i32>::empty());
            assert(Seq::<i32>::empty().to_set() =~= Set::<i32>::empty());
            assert(old(self).literals@ + Set::<i32>::empty() =~= old(self).literals@);
        }
        while j < config.literals.len()
            invariant
                j <= config.literals@.len(),
                self.complete_configs@ == old(self).complete_configs@,
                self.partial_configs@ == old(self).partial_configs@,
                self.vars@ == old(self).vars@,
                self.literals@ == old(self).literals@ + config.spec_literals().take(
                    j as int,
                ).to_set(),
            decreases config.literals@.len() - j,
        {
            self.literals.insert(config.literals[j]);
            proof {
                let pre = config.spec_literals().take(j as int);
                assert(config.spec_literals().take(j + 1) =~= pre.push(
                    config.spec_literals()[j as int],
                ));
                lemma_to_set_push(pre, config.spec_literals()[j as int]);
                assert(old(self).literals@ + pre.to_set().insert(config.spec_literals()[j as int])
                    =~= (old(self).literals@ + pre.to_set()).insert(config.literals@[j as int]));
            }
            j = j + 1;
        }
        proof {
            assert(config.spec_literals().take(config.spec_literals().len() as int)
                =~= config.spec_literals());
        }
        self.partial_configs.push(config);
    }

    /// Adds a config and automatically determines whether it is complete or
    /// partial in the context of this sample.
    pub fn add(&mut self, config: Config)
        ensures
            final(self).spec_vars() == old(self).spec_vars(),
            final(self).spec_literals() == old(self).spec_literals()
                + config.spec_literals().to_set(),
            old(self).spec_is_complete(config) ==> final(self).spec_complete_configs() == old(
                self,
            ).spec_complete_configs().push(config) && final(self).spec_partial_configs() == old(
                self,
            ).spec_partial_configs(),
            !old(self).spec_is_complete(config) ==> final(self).spec_partial_configs() == old(
                self,
            ).spec_partial_configs().push(config) && final(self).spec_complete_configs() == old(
                self,
            ).spec_complete_configs(),
    {
        if self.is_config_complete(&config) {
            self.add_complete(config);
        } else {
            self.add_partial(config);
        }
    }

    /// Adds each given config in order, classifying it as complete or partial.
    pub fn extend(&mut self, configs: Vec<Config>)
        ensures
            final(self).spec_vars() == old(self).spec_vars(),
            final(self).spec_literals() == old(self).spec_literals() + lits_union(configs@),
            final(self).spec_complete_configs() == old(self).spec_complete_configs()
                + configs@.filter(
                |c: Config| c.spec_literals().len() == old(self).spec_vars().len(),
            ),
            final(self).spec_partial_configs() == old(self).spec_partial_configs()
                + configs@.filter(
                |c: Config| c.spec_literals().len() != old(self).spec_vars().len(),
            ),
    {
        let ghost all = configs@;
        let ghost vlen = old(self).spec_vars().len();
        let ghost cpred = |c: Config| c.spec_literals().len() == vlen;
        let ghost ppred = |c: Config| c.spec_literals().len() != vlen;
        let mut configs = configs;
        let ghost mut t: int = 0;
        proof {
            reveal_with_fuel(Seq::filter, 2);
            assert(all.take(0) =~= Seq::<Config>::empty());
            assert(Seq::<Config>::empty().filter(cpred) =~= Seq::<Config>::empty());
            assert(Seq::<Config>::empty().filter(ppred) =~= Seq::<Config>::empty());
            assert(self.spec_complete_configs() + Seq::<Config>::empty()
                =~= self.spec_complete_configs());
            assert(self.spec_partial_configs() + Seq::<Config>::empty()
                =~= self.spec_partial_configs());
            assert(self.spec_literals() + Set::<i32>::empty() =~= self.spec_literals());
        }
        while configs.len() > 0
            invariant
                0 <= t <= all.len(),
                configs@ == all.skip(t),
                self.spec_vars() == old(self).spec_vars(),
                self.spec_vars().len() == vlen,
                cpred == (|c: Config| c.spec_literals().len() == vlen),
                ppred == (|c: Config| c.spec_literals().len() != vlen),
                self.spec_complete_configs() == old(self).spec_complete_configs() + all.take(
                    t,
                ).filter(cpred),
                self.spec_partial_configs() == old(self).spec_partial_configs() + all.take(
                    t,
                ).filter(ppred),
                self.spec_literals() == old(self).spec_literals() + lits_union(all.take(t)),
            decreases configs@.len(),
        {
            let c = configs.remove(0);
            proof {
                reveal_with_fuel(Seq::filter, 2);
                assert(c == all[t]);
                assert(configs@ =~= all.skip(t + 1));
                assert(all.take(t + 1) =~= all.take(t) + seq![all[t]]);
                assert(all.take(t + 1).drop_last() =~= all.take(t));
                assert(all.take(t + 1).last() == all[t]);
                Seq::filter_distributes_over_add(all.take(t), seq![all[t]], cpred);
                Seq::filter_distributes_over_add(all.take(t), seq![all[t]], ppred);
                assert(seq![all[t]].drop_last() =~= Seq::<Config>::empty());
                assert(Seq::<Config>::empty().filter(cpred) =~= Seq::<Config>::empty());
                assert(Seq::<Config>::empty().filter(ppred) =~= Seq::<Config>::empty());
                if cpred(all[t]) {
                    assert(seq![all[t]].filter(cpred) =~= seq![all[t]]);
                    assert(seq![all[t]].filter(ppred) =~= Seq::<Config>::empty());
                } else {
                    assert(seq![all[t]].filter(cpred) =~= Seq::<Config>::empty());
                    assert(seq![all[t]].filter(ppred) =~= seq![all[t]]);
                }
            }
            let ghost before_lits = self.spec_literals();
            let ghost before_complete = self.spec_complete_configs();
            let ghost before_partial = self.spec_partial_configs();
            self.add(c);
            proof {
                t = t + 1;
                assert(lits_union(all.take(t)) == lits_union(all.take(t - 1)) + all[t
                    - 1].spec_literals().to_set());
                assert(old(self).spec_literals() + lits_union(all.take(t)) =~= (old(
                    self,
                ).spec_literals() + lits_union(all.take(t - 1))) + all[t
                    - 1].spec_literals().to_set());
                if cpred(all[t - 1]) {
                    assert(before_complete + seq![all[t - 1]] =~= self.spec_complete_configs());
                    assert(old(self).spec_complete_configs() + (all.take(t - 1).filter(cpred)
                        + seq![all[t - 1]]) =~= (old(self).spec_complete_configs() + all.take(
                        t - 1,
                    ).filter(cpred)) + seq![all[t - 1]]);
                    assert(old(self).spec_partial_configs() + all.take(t).filter(ppred) =~= old(
                        self,
                    ).spec_partial_configs() + all.take(t - 1).filter(ppred));
                } else {
                    assert(before_partial + seq![all[t - 1]] =~= self.spec_partial_configs());
                    assert(old(self).spec_partial_configs() + (all.take(t - 1).filter(ppred)
                        + seq![all[t - 1]]) =~= (old(self).spec_partial_configs() + all.take(
                        t - 1,
                    ).filter(ppred)) + seq![all[t - 1]]);
                    assert(old(self).spec_complete_configs() + all.take(t).filter(cpred) =~= old(
                        self,
                    ).spec_complete_configs() + all.take(t - 1).filter(cpred));
                }
            }
        }
        proof {
            assert(all.take(t) =~= all);
        }
    }

    /// Determines whether the config is complete (true) or partial (false)
    /// in the context of this sample.
    pub fn is_config_complete(&self, config: &Config) -> (r: bool)
        ensures
            r == self.spec_is_complete(*config),
    {
        config.literals.len() == self.vars.len()
    }

    /// The configs of this sample, complete ones first.
    pub fn iter(&self) -> (r: Vec<&Config>)
        ensures
            r@.len() == self.spec_configs().len(),
            forall|i: int| 0 <= i < r@.len() ==> *r@[i] == self.spec_configs()[i],
    {
        let mut out: Vec<&Config> = Vec::new();
        let mut i: usize = 0;
        while i < self.complete_configs.len()
            invariant
                i <= self.complete_configs@.len(),
                out@.len() == i,
                forall|k: int| 0 <= k < i ==> *out@[k] == self.complete_configs@[k],
            decreases self.complete_configs@.len() - i,
        {
            out.push(&self.complete_configs[i]);
            i = i + 1;
        }
        let mut j: usize = 0;
        while j < self.partial_configs.len()
            invariant
                j <= self.partial_configs@.len(),
                out@.len() == self.complete_configs@.len() + j,
                forall|k: int|
                    0 <= k < self.complete_configs@.len() ==> *out@[k]
                        == self.complete_configs@[k],
                forall|k: int|
                    0 <= k < j ==> *out@[self.complete_configs@.len() + k]
                        == self.partial_configs@[k],
            decreases self.partial_configs@.len() - j,
        {
            out.push(&self.partial_configs[j]);
            j = j + 1;
        }
        out
    }

    /// The configs of this sample paired with their completeness.
    pub fn iter_with_completeness(&self) -> (r: Vec<(&Config, bool)>)
        ensures
            r@.len() == self.spec_configs().len(),
            forall|i: int|
                0 <= i < r@.len() ==> *(#[trigger] r@[i]).0 == self.spec_configs()[i] && r@[i].1
                    == (i < self.spec_complete_configs().len()),
    {
        let mut out: Vec<(&Config, bool)> = Vec::new();
        let mut i: usize = 0;
        while i < self.complete_configs.len()
            invariant
                i <= self.complete_configs@.len(),
                out@.len() == i,
                forall|k: int|
                    0 <= k < i ==> *(#[trigger] out@[k]).0 == self.complete_configs@[k]
                        && out@[k].1 == true,
            decreases self.complete_configs@.len() - i,
        {
            out.push((&self.complete_configs[i], true));
            i = i + 1;
        }
        let mut j: usize = 0;
        while j < self.partial_configs.len()
            invariant
                j <= self.partial_configs@.len(),
                out@.len() == self.complete_configs@.len() + j,
                forall|k: int|
                    0 <= k < self.complete_configs@.len() ==> *(#[trigger] out@[k]).0
                        == self.complete_configs@[k] && out@[k].1 == true,
                forall|k: int|
                    0 <= k < j ==> *(#[trigger] out@[self.complete_configs@.len() + k]).0
                        == self.partial_configs@[k] && out@[self.complete_configs@.len() + k].1
                        == false,
            decreases self.partial_configs@.len() - j,
        {
            out.push((&self.partial_configs[j], false));
            j = j + 1;
        }
        proof {
            assert forall|i: int|
                0 <= i < out@.len() implies *(#[trigger] out@[i]).0 == self.spec_configs()[i]
                && out@[i].1 == (i < self.spec_complete_configs().len()) by {
                if i < self.complete_configs@.len() {
                    assert(*out@[i].0 == self.complete_configs@[i]);
                    assert(self.spec_configs()[i] == self.complete_configs@[i]);
                } else {
                    let k = i - self.complete_configs@.len();
                    assert(*(out@[self.complete_configs@.len() + k]).0
                        == self.partial_configs@[k]);
                    assert(self.spec_configs()[i] == self.partial_configs@[k]);
                }
            }
        }
        out
    }

    /// Returns the number of configs in this sample.
    pub fn len(&self) -> (r: usize)
        requires
            self.spec_complete_configs().len() + self.spec_partial_configs().len() <= usize::MAX,
        ensures
            r == self.spec_configs().len(),
    {
        self.complete_configs.len() + self.partial_configs.len()
    }

    /// Returns true if the sample contains no configs.
    pub fn is_empty(&self) -> (r: bool)
        ensures
            r == (self.spec_configs().len() == 0),
    {
        self.complete_configs.is_empty() && self.partial_configs.is_empty()
    }

    /// Checks if some config of this sample covers the given interaction.
    pub fn covers(&self, interaction: &[i32]) -> (r: bool)
        ensures
            r == exists|k: int|
                0 <= k < self.spec_configs().len() && spec_covers(
                    #[trigger] self.spec_configs()[k],
                    interaction@,
                ),
    {
        let all = self.iter();
        let mut found = false;
        let mut i: usize = 0;
        while i < all.len()
            invariant
                i <= all@.len(),
                all@.len() == self.spec_configs().len(),
                forall|k: int| 0 <= k < all@.len() ==> *all@[k] == self.spec_configs()[k],
                found == exists|k: int|
                    0 <= k < i && spec_covers(#[trigger] self.spec_configs()[k], interaction@),
            decreases all@.len() - i,
        {
            let cres = all[i].covers(interaction);
            proof {
                assert(*all@[i as int] == self.spec_configs()[i as int]);
                assert(cres == spec_covers(self.spec_configs()[i as int], interaction@));
            }
            found = found || cres;
            i = i + 1;
        }
        found
    }
}

/// Pushing an element adds exactly it to the set of a sequence of variables.
pub proof fn lemma_to_set_push_u32(s: Seq<u32>, x: u32)
    ensures
        s.push(x).to_set() == s.to_set().insert(x),
{
    let p = s.push(x);
    assert forall|e: u32| p.to_set().contains(e) <==> s.to_set().contains(e) || e == x by {
        if p.contains(e) {
            let w = choose|w: int| 0 <= w < p.len() && p[w] == e;
            if w < s.len() {
                assert(s[w] == e);
            }
        }
        if s.contains(e) {
            let w = choose|w: int| 0 <= w < s.len() && s[w] == e;
            assert(p[w] == e);
        }
        if e == x {
            assert(p[s.len() as int] == x);
        }
    }
    assert(p.to_set() =~= s.to_set().insert(x));
}

} // verus!
