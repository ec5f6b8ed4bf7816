use crate::proposition::{Formula, Proposition};
use vstd::prelude::*;

verus! {

/// The order of names: character by character by code point, a proper
/// prefix before what it is a prefix of.
pub open spec fn precedes(a: Seq<char>, b: Seq<char>) -> bool
    decreases a.len(),
{
    if b.len() == 0 {
        false
    } else if a.len() == 0 {
        true
    } else if a[0] != b[0] {
        (a[0] as int) < (b[0] as int)
    } else {
        precedes(a.drop_first(), b.drop_first())
    }
}

/// Of two different names one precedes the other.
pub proof fn lemma_precedes_total(a: Seq<char>, b: Seq<char>)
    requires
        a != b,
    ensures
        precedes(a, b) || precedes(b, a),
    decreases a.len(),
{
    if a.len() > 0 && b.len() > 0 && a[0] == b[0] {
        if a.drop_first() == b.drop_first() {
            assert(a =~= seq![a[0]] + a.drop_first());
            assert(b =~= seq![b[0]] + b.drop_first());
        }
        lemma_precedes_total(a.drop_first(), b.drop_first());
    } else if a.len() == 0 && b.len() == 0 {
        assert(a =~= b);
    } else if a.len() > 0 && b.len() > 0 {
        assert((a[0] as int) != (b[0] as int));
    }
}

/// The order of names is transitive.
pub proof fn lemma_precedes_transitive(a: Seq<char>, b: Seq<char>, c: Seq<char>)
    requires
        precedes(a, b),
        precedes(b, c),
    ensures
        precedes(a, c),
    decreases a.len(),
{
    if a.len() > 0 && b.len() > 0 && c.len() > 0 && a[0] == b[0] && b[0] == c[0] {
        lemma_precedes_transitive(a.drop_first(), b.drop_first(), c.drop_first());
    }
}

/// No name precedes itself.
pub proof fn lemma_precedes_irreflexive(a: Seq<char>)
    ensures
        !precedes(a, a),
    decreases a.len(),
{
    if a.len() > 0 {
        lemma_precedes_irreflexive(a.drop_first());
    }
}

/// The texts of a list of strings.
pub open spec fn names(strings: Seq<String>) -> Seq<Seq<char>> {
    Seq::new(strings.len(), |i: int| strings[i]@)
}

/// Whether each name of the list precedes those behind it.
pub open spec fn ascending(list: Seq<Seq<char>>) -> bool {
    forall|i: int, j: int| 0 <= i < j < list.len() ==> precedes(list[i], list[j])
}

impl Formula {
    /// The names of the atoms of the formula in ascending order, each once.
    pub open spec fn variable_list(self) -> Seq<Seq<char>> {
        choose|list: Seq<Seq<char>>| ascending(list) && lists(list, self.atoms())
    }

    /// The names of the atoms of the formula.
    pub open spec fn atoms(self) -> Set<Seq<char>>
        decreases self,
    {
        match self {
            Formula::Void => Set::empty(),
            Formula::Atom(name) => set![name],
            Formula::Negation(inner) => inner.atoms(),
            Formula::Implication(left, right) => left.atoms().union(right.atoms()),
            Formula::BiImplication(left, right) => left.atoms().union(right.atoms()),
            Formula::Disjunction(left, right) => left.atoms().union(right.atoms()),
            Formula::Conjunction(left, right) => left.atoms().union(right.atoms()),
        }
    }
}

/// Whether the list holds exactly the names of the set.
pub open spec fn lists(list: Seq<Seq<char>>, set: Set<Seq<char>>) -> bool {
    forall|name: Seq<char>| #[trigger] list.contains(name) <==> set.contains(name)
}

/// Two ascending lists of the same names are the same list.
pub proof fn lemma_ascending_unique(a: Seq<Seq<char>>, b: Seq<Seq<char>>)
    requires
        ascending(a),
        ascending(b),
        forall|name: Seq<char>| #[trigger] a.contains(name) <==> b.contains(name),
    ensures
        a == b,
    decreases a.len(),
{
    if a.len() == 0 {
        if b.len() > 0 {
            assert(b.contains(b[0]));
            assert(a.contains(b[0]));
        }
        assert(a =~= b);
    } else {
        assert(a.contains(a[0]));
        assert(b.contains(a[0]));
        let k = choose|k: int| 0 <= k < b.len() && b[k] == a[0];
        assert(b.contains(b[0]));
        assert(a.contains(b[0]));
        let j = choose|j: int| 0 <= j < a.len() && a[j] == b[0];
        lemma_precedes_irreflexive(a[0]);
        if k > 0 && j > 0 {
            assert(precedes(b[0], b[k]));
            assert(precedes(a[0], a[j]));
            lemma_precedes_transitive(a[0], b[0], a[0]);
        }
        assert(a[0] == b[0]);
        let x = a.drop_first();
        let y = b.drop_first();
        assert forall|name: Seq<char>| #[trigger] x.contains(name) <==> y.contains(name) by {
            if x.contains(name) {
                let i = choose|i: int| 0 <= i < x.len() && x[i] == name;
                assert(a[i + 1] == name);
                assert(precedes(a[0], a[i + 1]));
                assert(a.contains(name));
                assert(b.contains(name));
                let m = choose|m: int| 0 <= m < b.len() && b[m] == name;
                if m == 0 {
                } else {
                    assert(y[m - 1] == name);
                }
            }
            if y.contains(name) {
                let i = choose|i: int| 0 <= i < y.len() && y[i] == name;
                assert(b[i + 1] == name);
                assert(precedes(b[0], b[i + 1]));
                assert(b.contains(name));
                assert(a.contains(name));
                let m = choose|m: int| 0 <= m < a.len() && a[m] == name;
                if m == 0 {
                } else {
                    assert(x[m - 1] == name);
                }
            }
        }
        assert(ascending(x)) by {
            assert forall|i: int, j: int| 0 <= i < j < x.len() implies precedes(x[i], x[j]) by {
                assert(precedes(a[i + 1], a[j + 1]));
            }
        }
        assert(ascending(y)) by {
            assert forall|i: int, j: int| 0 <= i < j < y.len() implies precedes(y[i], y[j]) by {
                assert(precedes(b[i + 1], b[j + 1]));
            }
        }
        lemma_ascending_unique(x, y);
        assert(a =~= seq![a[0]] + x);
        assert(b =~= seq![b[0]] + y);
    }
}

/// Decides whether the first name precedes the second.
pub fn name_precedes(a: &str, b: &str) -> (before: bool)
    ensures
        before == precedes(a@, b@),
{
    let n = a.unicode_len();
    let m = b.unicode_len();
    let mut i: usize = 0;
    proof {
        assert(a@.skip(0) =~= a@);
        assert(b@.skip(0) =~= b@);
    }
    while i < n && i < m
        invariant
            i <= n,
            i <= m,
            n == a@.len(),
            m == b@.len(),
            precedes(a@, b@) == precedes(a@.skip(i as int), b@.skip(i as int)),
        decreases n - i,
    {
        let x = a.get_char(i);
        let y = b.get_char(i);
        proof {
            assert(a@.skip(i as int)[0] == x);
            assert(b@.skip(i as int)[0] == y);
            assert(a@.skip(i as int).drop_first() =~= a@.skip(i + 1));
            assert(b@.skip(i as int).drop_first() =~= b@.skip(i + 1));
        }
        if x != y {
            return (x as u32) < (y as u32);
        }
        i += 1;
    }
    i < m
}

/// Puts a name into an ascending list at its place, unless it is there.
pub fn insert_name(vars: &mut Vec<String>, name: &String)
    requires
        ascending(names(old(vars)@)),
    ensures
        ascending(names(final(vars)@)),
        forall|other: Seq<char>|
            #[trigger] names(final(vars)@).contains(other) <==> names(old(vars)@).contains(other)
                || other == name@,
{
    let ghost before = names(vars@);
    let mut i: usize = 0;
    while i < vars.len() && name_precedes(vars[i].as_str(), name.as_str())
        invariant
            i <= vars.len(),
            names(vars@) == before,
            forall|j: int| 0 <= j < i ==> precedes(#[trigger] before[j], name@),
        decreases vars.len() - i,
    {
        assert(before[i as int] == vars[i as int]@);
        i += 1;
    }
    if i < vars.len() && vars[i] == *name {
        proof {
            assert(before[i as int] == vars[i as int]@);
            assert(before.contains(name@));
        }
        return ;
    }
    vars.insert(i, name.clone());
    proof {
        let after = names(vars@);
        assert(after =~= before.insert(i as int, name@));
        if i < before.len() {
            assert(before[i as int] == old(vars)@[i as int]@);
            lemma_precedes_total(before[i as int], name@);
        }
        assert forall|a: int, b: int| 0 <= a < b < after.len() implies precedes(
            after[a],
            after[b],
        ) by {
            if b < i {
            } else if b == i {
            } else if a == i {
                if b - 1 > i {
                    lemma_precedes_transitive(name@, before[i as int], before[b - 1]);
                }
            } else if a < i {
                assert(after[b] == before[b - 1]);
            } else {
                assert(after[a] == before[a - 1]);
                assert(after[b] == before[b - 1]);
            }
        }
        assert forall|other: Seq<char>|
            after.contains(other) <==> before.contains(other) || other == name@ by {
            if after.contains(other) {
                let k = choose|k: int| 0 <= k < after.len() && after[k] == other;
                if k < i {
                    assert(before[k] == other);
                } else if k > i {
                    assert(before[k - 1] == other);
                }
            }
            if before.contains(other) {
                let k = choose|k: int| 0 <= k < before.len() && before[k] == other;
                if k < i {
                    assert(after[k] == other);
                } else {
                    assert(after[k + 1] == other);
                }
            }
            assert(after[i as int] == name@);
        }
    }
}

/// Two additions to a list, one after the other, add the union.
pub proof fn lemma_joined(
    start: Seq<Seq<char>>,
    middle: Seq<Seq<char>>,
    end: Seq<Seq<char>>,
    first: Set<Seq<char>>,
    second: Set<Seq<char>>,
)
    requires
        forall|name: Seq<char>|
            #[trigger] middle.contains(name) <==> start.contains(name) || first.contains(name),
        forall|name: Seq<char>|
            #[trigger] end.contains(name) <==> middle.contains(name) || second.contains(name),
    ensures
        forall|name: Seq<char>|
            #[trigger] end.contains(name) <==> start.contains(name) || first.union(
                second,
            ).contains(name),
{
    assert forall|name: Seq<char>|
        #[trigger] end.contains(name) <==> start.contains(name) || first.union(second).contains(
            name,
        ) by {
        assert(middle.contains(name) <==> start.contains(name) || first.contains(name));
    }
}

impl Proposition {
    /// The names of the variables of the proposition, each once, in
    /// ascending order.
    pub fn get_variables(&self) -> (vars: Vec<String>)
        ensures
            ascending(names(vars@)),
            lists(names(vars@), self@.atoms()),
            names(vars@) == self@.variable_list(),
    {
        let mut vars: Vec<String> = Vec::new();
        self.inner_get_variables(&mut vars);
        proof {
            let found = names(vars@);
            assert forall|name: Seq<char>| #[trigger]
                found.contains(name) <==> self@.atoms().contains(name) by {
                assert(!names(Seq::<String>::empty()).contains(name));
            }
            assert(ascending(found) && lists(found, self@.atoms()));
            lemma_ascending_unique(found, self@.variable_list());
        }
        vars
    }

    /// Adds the names of the variables of the proposition to an ascending
    /// list, each at its place, unless it is there.
    pub fn inner_get_variables(&self, vars: &mut Vec<String>)
        requires
            ascending(names(old(vars)@)),
        ensures
            ascending(names(final(vars)@)),
            forall|name: Seq<char>|
                #[trigger] names(final(vars)@).contains(name) <==> names(old(vars)@).contains(
                    name,
                ) || self@.atoms().contains(name),
        decreases self,
    {
        let ghost start = names(vars@);
        match self {
            Proposition::Void => (),
            Proposition::Atom(v) => {
                insert_name(vars, v);
            },
            Proposition::Negation(n) => n.inner.inner_get_variables(vars),
            Proposition::Implication(i) => {
                i.left.inner_get_variables(vars);
                let ghost middle = names(vars@);
                i.right.inner_get_variables(vars);
                proof {
                    lemma_joined(start, middle, names(vars@), i.left@.atoms(), i.right@.atoms());
                }
            },
            Proposition::BiImplication(b) => {
                b.left.inner_get_variables(vars);
                let ghost middle = names(vars@);
                b.right.inner_get_variables(vars);
                proof {
                    lemma_joined(start, middle, names(vars@), b.left@.atoms(), b.right@.atoms());
                }
            },
            Proposition::Disjunction(d) => {
                d.left.inner_get_variables(vars);
                let ghost middle = names(vars@);
                d.right.inner_get_variables(vars);
                proof {
                    lemma_joined(start, middle, names(vars@), d.left@.atoms(), d.right@.atoms());
                }
            },
            Proposition::Conjunction(c) => {
                c.left.inner_get_variables(vars);
                let ghost middle = names(vars@);
                c.right.inner_get_variables(vars);
                proof {
                    lemma_joined(start, middle, names(vars@), c.left@.atoms(), c.right@.atoms());
                }
            },
        }
    }
}

} // verus!
