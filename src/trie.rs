//! Rules of one term: their pattern constraints, the overlap check between
//! rules of equal priority, and the choice of the rule that fires.
use vstd::prelude::*;

verus! {

/// The id of a binding: a value derived while matching a rule's pattern.
#[derive(Clone, Copy, Debug, PartialEq, Eq, Hash, Structural)]
pub struct BindingId(pub usize);

/// A test on a binding. Each test selects one class of a partition of the
/// binding's values: distinct tests on one binding never hold together.
#[derive(Clone, Copy, Debug, PartialEq, Eq, Hash, Structural)]
pub enum Constraint {
    /// The binding is this integer.
    ConstInt(i128),
    /// The binding is this primitive symbol.
    ConstPrim(usize),
    /// The binding is this enum variant.
    Variant(usize),
    /// The optional binding is present.
    Present,
}

/// A rule: the constraints of its pattern, its priority (higher wins), and
/// its source position.
#[derive(Debug)]
pub struct Rule {
    pub constraints: Vec<(BindingId, Constraint)>,
    pub priority: i64,
    pub pos: usize,
}

/// Two rules of one term that can both match and that priority does not
/// order, by their indices and source positions.
#[derive(Clone, Copy, Debug, PartialEq, Eq, Structural)]
pub struct OverlapError {
    pub first: usize,
    pub second: usize,
    pub first_pos: usize,
    pub second_pos: usize,
}

/// An input gives each binding the class of values it falls into; binding
/// `b` falls into class `inp[b]`.
pub open spec fn input_matches(cs: Seq<(BindingId, Constraint)>, inp: Seq<Constraint>) -> bool {
    forall|k: int| 0 <= k < cs.len() ==> (#[trigger] cs[k]).0.0 < inp.len() && inp[cs[k].0.0 as int] == cs[k].1
}

/// No two constraints of `cs` test one binding differently.
pub open spec fn compatible(cs: Seq<(BindingId, Constraint)>) -> bool {
    forall|i: int, j: int|
        0 <= i < cs.len() && 0 <= j < cs.len() && (#[trigger] cs[i]).0 == (#[trigger] cs[j]).0 ==> cs[i].1 == cs[j].1
}

/// Two rules overlap when some input matches both.
pub open spec fn overlap(a: Seq<(BindingId, Constraint)>, b: Seq<(BindingId, Constraint)>) -> bool {
    exists|inp: Seq<Constraint>| input_matches(a, inp) && input_matches(b, inp)
}

/// The pairs of rules `i < j` of equal priority that overlap.
pub open spec fn overlapping_pairs(rules: Seq<Rule>) -> Set<(int, int)> {
    Set::new(|p: (int, int)| {
        &&& 0 <= p.0 < p.1 < rules.len()
        &&& rules[p.0].priority == rules[p.1].priority
        &&& overlap(rules[p.0].constraints@, rules[p.1].constraints@)
    })
}

/// The largest binding index tested in `cs`, plus one.
pub open spec fn bindings_bound(cs: Seq<(BindingId, Constraint)>) -> nat
    decreases cs.len(),
{
    if cs.len() == 0 {
        0
    } else {
        let rest = bindings_bound(cs.drop_last());
        let b = (cs.last().0.0 + 1) as nat;
        if b > rest {
            b
        } else {
            rest
        }
    }
}

proof fn lemma_bindings_bound(cs: Seq<(BindingId, Constraint)>, k: int)
    requires
        0 <= k < cs.len(),
    ensures
        cs[k].0.0 < bindings_bound(cs),
    decreases cs.len(),
{
    if k < cs.len() - 1 {
        lemma_bindings_bound(cs.drop_last(), k);
    }
}

/// The input that puts each binding tested in `cs` into the class it is
/// tested for.
pub open spec fn witness(cs: Seq<(BindingId, Constraint)>) -> Seq<Constraint> {
    Seq::new(
        bindings_bound(cs),
        |b: int|
            if exists|k: int| 0 <= k < cs.len() && cs[k].0.0 == b {
                cs[choose|k: int| 0 <= k < cs.len() && cs[k].0.0 == b].1
            } else {
                Constraint::Present
            },
    )
}

/// Constraints are satisfiable together exactly when they are compatible.
pub proof fn lemma_overlap_compatible(a: Seq<(BindingId, Constraint)>, b: Seq<(BindingId, Constraint)>)
    ensures
        overlap(a, b) <==> compatible(a + b),
{
    let cs = a + b;
    if overlap(a, b) {
        let inp = choose|inp: Seq<Constraint>| input_matches(a, inp) && input_matches(b, inp);
        assert forall|i: int, j: int|
            0 <= i < cs.len() && 0 <= j < cs.len() && (#[trigger] cs[i]).0 == (#[trigger] cs[j]).0
            implies cs[i].1 == cs[j].1 by {
            if i < a.len() {
                assert(cs[i] == a[i]);
            } else {
                assert(cs[i] == b[i - a.len()]);
            }
            if j < a.len() {
                assert(cs[j] == a[j]);
            } else {
                assert(cs[j] == b[j - a.len()]);
            }
        }
    }
    if compatible(cs) {
        let inp = witness(cs);
        assert forall|k: int| 0 <= k < cs.len() implies (#[trigger] cs[k]).0.0 < inp.len() && inp[cs[k].0.0 as int] == cs[k].1 by {
            lemma_bindings_bound(cs, k);
            let bk = cs[k].0.0 as int;
            assert(exists|l: int| 0 <= l < cs.len() && cs[l].0.0 == bk);
            let l = choose|l: int| 0 <= l < cs.len() && cs[l].0.0 == bk;
            assert(cs[l].0 == cs[k].0);
        }
        assert(input_matches(a, inp)) by {
            assert forall|k: int| 0 <= k < a.len() implies (#[trigger] a[k]).0.0 < inp.len() && inp[a[k].0.0 as int] == a[k].1 by {
                assert(cs[k] == a[k]);
            }
        }
        assert(input_matches(b, inp)) by {
            assert forall|k: int| 0 <= k < b.len() implies (#[trigger] b[k]).0.0 < inp.len() && inp[b[k].0.0 as int] == b[k].1 by {
                assert(cs[k + a.len()] == b[k]);
            }
        }
    }
}

/// Whether some input matches both constraint lists.
pub fn rules_overlap(a: &Vec<(BindingId, Constraint)>, b: &Vec<(BindingId, Constraint)>) -> (r: bool)
    ensures
        r == overlap(a@, b@),
{
    let mut cs: Vec<(BindingId, Constraint)> = Vec::new();
    let mut k: usize = 0;
    while k < a.len()
        invariant
            k <= a@.len(),
            cs@ == a@.take(k as int),
        decreases a@.len() - k,
    {
        cs.push(a[k]);
        proof {
            assert(a@.take(k as int + 1) =~= a@.take(k as int).push(a@[k as int]));
        }
        k = k + 1;
    }
    k = 0;
    while k < b.len()
        invariant
            k <= b@.len(),
            cs@ == a@ + b@.take(k as int),
        decreases b@.len() - k,
    {
        cs.push(b[k]);
        proof {
            if k == 0 {
                assert(a@.take(a@.len() as int) =~= a@);
            }
            assert(b@.take(k as int + 1) =~= b@.take(k as int).push(b@[k as int]));
            assert(a@ + b@.take(k as int + 1) =~= (a@ + b@.take(k as int)).push(b@[k as int]));
        }
        k = k + 1;
    }
    proof {
        if b@.len() == 0 {
            assert(a@.take(a@.len() as int) =~= a@);
        }
        assert(b@.take(b@.len() as int) =~= b@);
        assert(cs@ =~= a@ + b@);
        lemma_overlap_compatible(a@, b@);
    }
    let mut i: usize = 0;
    while i < cs.len()
        invariant
            i <= cs@.len(),
            overlap(a@, b@) == compatible(cs@),
            forall|x: int, y: int|
                0 <= x < i && 0 <= y < cs@.len() && (#[trigger] cs@[x]).0 == (#[trigger] cs@[y]).0 ==> cs@[x].1 == cs@[y].1,
        decreases cs@.len() - i,
    {
        let mut j: usize = 0;
        while j < cs.len()
            invariant
                i < cs@.len(),
                j <= cs@.len(),
                overlap(a@, b@) == compatible(cs@),
                forall|x: int, y: int|
                    0 <= x < i && 0 <= y < cs@.len() && (#[trigger] cs@[x]).0 == (#[trigger] cs@[y]).0 ==> cs@[x].1 == cs@[y].1,
                forall|y: int| 0 <= y < j && cs@[i as int].0 == (#[trigger] cs@[y]).0 ==> cs@[i as int].1 == cs@[y].1,
            decreases cs@.len() - j,
        {
            if cs[i].0 == cs[j].0 && cs[i].1 != cs[j].1 {
                proof {
                    assert(!compatible(cs@));
                }
                return false;
            }
            j = j + 1;
        }
        i = i + 1;
    }
    proof {
        assert(compatible(cs@));
    }
    true
}


/// The rules of one term, with no two of equal priority overlapping.
#[derive(Debug)]
pub struct RuleSet {
    pub rules: Vec<Rule>,
}

impl RuleSet {
    pub open spec fn wf(&self) -> bool {
        overlapping_pairs(self.rules@) == Set::<(int, int)>::empty()
    }

    /// The rule that fires on input `inp`: of the rules that match it, the
    /// one of highest priority, or `None` when no rule matches.
    pub fn lookup(&self, inp: &Vec<Constraint>) -> (r: Option<usize>)
        ensures
            r is None <==> forall|j: int| 0 <= j < self.rules@.len() ==> !input_matches(#[trigger] self.rules@[j].constraints@, inp@),
            r matches Some(i) ==> {
                &&& i < self.rules@.len()
                &&& input_matches(self.rules@[i as int].constraints@, inp@)
                &&& forall|j: int| 0 <= j < self.rules@.len() && input_matches(#[trigger] self.rules@[j].constraints@, inp@)
                    ==> self.rules@[j].priority <= self.rules@[i as int].priority
            },
    {
        let mut best: Option<usize> = None;
        let mut k: usize = 0;
        while k < self.rules.len()
            invariant
                k <= self.rules@.len(),
                best is None <==> forall|j: int| 0 <= j < k ==> !input_matches(#[trigger] self.rules@[j].constraints@, inp@),
                best matches Some(i) ==> {
                    &&& i < k
                    &&& input_matches(self.rules@[i as int].constraints@, inp@)
                    &&& forall|j: int| 0 <= j < k && input_matches(#[trigger] self.rules@[j].constraints@, inp@)
                        ==> self.rules@[j].priority <= self.rules@[i as int].priority
                },
            decreases self.rules@.len() - k,
        {
            if rule_matches(&self.rules[k].constraints, inp) {
                match best {
                    None => {
                        best = Some(k);
                    },
                    Some(i) => {
                        if self.rules[k].priority > self.rules[i].priority {
                            best = Some(k);
                        }
                    },
                }
            }
            k = k + 1;
        }
        best
    }
}

/// Whether input `inp` matches the constraints `cs`.
pub fn rule_matches(cs: &Vec<(BindingId, Constraint)>, inp: &Vec<Constraint>) -> (r: bool)
    ensures
        r == input_matches(cs@, inp@),
{
    let mut k: usize = 0;
    while k < cs.len()
        invariant
            k <= cs@.len(),
            forall|l: int| 0 <= l < k ==> (#[trigger] cs@[l]).0.0 < inp@.len() && inp@[cs@[l].0.0 as int] == cs@[l].1,
        decreases cs@.len() - k,
    {
        let (b, c) = cs[k];
        if b.0 >= inp.len() || inp[b.0] != c {
            return false;
        }
        k = k + 1;
    }
    true
}

/// `es` names exactly the overlapping pairs of `rules`, each with the source
/// positions of its two rules.
pub open spec fn reports(rules: Seq<Rule>, es: Seq<OverlapError>) -> bool {
    &&& forall|p: (int, int)| #[trigger] overlapping_pairs(rules).contains(p)
        <==> exists|k: int| 0 <= k < es.len() && es[k].first == p.0 && es[k].second == p.1
    &&& forall|k: int| 0 <= k < es.len() ==> {
        &&& (#[trigger] es[k]).first < es[k].second < rules.len()
        &&& es[k].first_pos == rules[es[k].first as int].pos
        &&& es[k].second_pos == rules[es[k].second as int].pos
    }
}

/// Check the rules of one term for overlap. Every pair of rules of equal
/// priority that some input matches both is reported, by indices and source
/// positions; with none, the rules form a rule set.
pub fn compile(rules: Vec<Rule>) -> (r: Result<RuleSet, Vec<OverlapError>>)
    ensures
        r is Ok <==> overlapping_pairs(rules@) == Set::<(int, int)>::empty(),
        r matches Ok(set) ==> set.rules@ == rules@ && set.wf(),
        r matches Err(es) ==> reports(rules@, es@),
{
    let n = rules.len();
    let mut errors: Vec<OverlapError> = Vec::new();
    let mut i: usize = 0;
    while i < n
        invariant
            n == rules@.len(),
            i <= n,
            forall|p: (int, int)| (#[trigger] overlapping_pairs(rules@).contains(p) && p.0 < i)
                <==> exists|k: int| 0 <= k < errors@.len() && errors@[k].first == p.0 && errors@[k].second == p.1,
            forall|k: int| 0 <= k < errors@.len() ==> {
                &&& (#[trigger] errors@[k]).first < errors@[k].second < rules@.len()
                &&& errors@[k].first < i
                &&& errors@[k].first_pos == rules@[errors@[k].first as int].pos
                &&& errors@[k].second_pos == rules@[errors@[k].second as int].pos
            },
        decreases n - i,
    {
        let mut j: usize = i + 1;
        while j < n
            invariant
                n == rules@.len(),
                i < n,
                i + 1 <= j <= n,
                forall|p: (int, int)| (#[trigger] overlapping_pairs(rules@).contains(p) && (p.0 < i || (p.0 == i && p.1 < j)))
                    <==> exists|k: int| 0 <= k < errors@.len() && errors@[k].first == p.0 && errors@[k].second == p.1,
                forall|k: int| 0 <= k < errors@.len() ==> {
                    &&& (#[trigger] errors@[k]).first < errors@[k].second < rules@.len()
                    &&& (errors@[k].first < i || (errors@[k].first == i && errors@[k].second < j))
                    &&& errors@[k].first_pos == rules@[errors@[k].first as int].pos
                    &&& errors@[k].second_pos == rules@[errors@[k].second as int].pos
                },
            decreases n - j,
        {
            let ghost before = errors@;
            if rules[i].priority == rules[j].priority && rules_overlap(&rules[i].constraints, &rules[j].constraints) {
                errors.push(OverlapError {
                    first: i,
                    second: j,
                    first_pos: rules[i].pos,
                    second_pos: rules[j].pos,
                });
                proof {
                    assert(errors@[before.len() as int].first == i);
                    assert forall|p: (int, int)| (#[trigger] overlapping_pairs(rules@).contains(p) && (p.0 < i || (p.0 == i && p.1 < j + 1)))
                        <==> exists|k: int| 0 <= k < errors@.len() && errors@[k].first == p.0 && errors@[k].second == p.1 by {
                        if exists|k: int| 0 <= k < errors@.len() && errors@[k].first == p.0 && errors@[k].second == p.1 {
                            let k = choose|k: int| 0 <= k < errors@.len() && errors@[k].first == p.0 && errors@[k].second == p.1;
                            if k < before.len() {
                                assert(before[k] == errors@[k]);
                            }
                        }
                        if overlapping_pairs(rules@).contains(p) && (p.0 < i || (p.0 == i && p.1 < j)) {
                            let k = choose|k: int| 0 <= k < before.len() && before[k].first == p.0 && before[k].second == p.1;
                            assert(errors@[k] == before[k]);
                        }
                    }
                    assert forall|k: int| 0 <= k < errors@.len() implies {
                        &&& (#[trigger] errors@[k]).first < errors@[k].second < rules@.len()
                        &&& (errors@[k].first < i || (errors@[k].first == i && errors@[k].second < j + 1))
                        &&& errors@[k].first_pos == rules@[errors@[k].first as int].pos
                        &&& errors@[k].second_pos == rules@[errors@[k].second as int].pos
                    } by {
                        if k < before.len() {
                            assert(before[k] == errors@[k]);
                        }
                    }
                }
            } else {
                proof {
                    assert(!overlapping_pairs(rules@).contains((i as int, j as int)));
                    assert forall|p: (int, int)| (#[trigger] overlapping_pairs(rules@).contains(p) && (p.0 < i || (p.0 == i && p.1 < j + 1)))
                        <==> exists|k: int| 0 <= k < errors@.len() && errors@[k].first == p.0 && errors@[k].second == p.1 by {
                        if overlapping_pairs(rules@).contains(p) && p.0 == i && p.1 == j {
                            assert(false);
                        }
                    }
                }
            }
            j = j + 1;
        }
        proof {
            assert forall|p: (int, int)| (#[trigger] overlapping_pairs(rules@).contains(p) && p.0 < i + 1)
                <==> exists|k: int| 0 <= k < errors@.len() && errors@[k].first == p.0 && errors@[k].second == p.1 by {
                if overlapping_pairs(rules@).contains(p) && p.0 == i {
                    assert(p.1 < n);
                }
            }
        }
        i = i + 1;
    }
    if errors.len() > 0 {
        proof {
            let e = errors@[0];
            assert(overlapping_pairs(rules@).contains((e.first as int, e.second as int)));
            assert forall|p: (int, int)| #[trigger] overlapping_pairs(rules@).contains(p)
                <==> exists|k: int| 0 <= k < errors@.len() && errors@[k].first == p.0 && errors@[k].second == p.1 by {
                if overlapping_pairs(rules@).contains(p) {
                    assert(p.0 < n);
                }
            }
            assert(reports(rules@, errors@));
        }
        Err(errors)
    } else {
        proof {
            assert(overlapping_pairs(rules@) =~= Set::<(int, int)>::empty());
        }
        Ok(RuleSet { rules })
    }
}

/// Overlap soundness: two rules of equal priority that some input matches
/// both are an overlapping pair, which `compile` reports.
pub proof fn lemma_overlap_reported(rules: Seq<Rule>, i: int, j: int, inp: Seq<Constraint>)
    requires
        0 <= i < j < rules.len(),
        rules[i].priority == rules[j].priority,
        input_matches(rules[i].constraints@, inp),
        input_matches(rules[j].constraints@, inp),
    ensures
        overlapping_pairs(rules).contains((i, j)),
{
}

/// In a rule set, two distinct rules that match one input have different
/// priorities, so the rule that fires is determined by priority alone.
pub proof fn lemma_priority_decides(set: RuleSet, i: int, j: int, inp: Seq<Constraint>)
    requires
        set.wf(),
        0 <= i < set.rules@.len(),
        0 <= j < set.rules@.len(),
        i != j,
        input_matches(set.rules@[i].constraints@, inp),
        input_matches(set.rules@[j].constraints@, inp),
    ensures
        set.rules@[i].priority != set.rules@[j].priority,
{
    if set.rules@[i].priority == set.rules@[j].priority {
        if i < j {
            assert(overlapping_pairs(set.rules@).contains((i, j)));
        } else {
            assert(overlapping_pairs(set.rules@).contains((j, i)));
        }
    }
}

} // verus!
