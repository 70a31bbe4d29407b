//! The variable store: mutable game state that dialogue reads and writes.
//!
//! [`Variables`] holds the current value of every variable by name. Seeding
//! it from a [`DialogueDatabase`] adds the database's initial values without
//! overwriting values that already exist.

use vstd::prelude::*;

use crate::assoc::{assoc_map, is_last_key, lemma_assoc_dom, lemma_assoc_push, lemma_assoc_update, lemma_assoc_value};
use crate::data::{DialogueDatabase, FieldValue, Variable};
use crate::first::{first_match, is_first_match};

verus! {

/// A copy of a value.
pub fn copy_value(v: &FieldValue) -> (r: FieldValue)
    ensures
        r == *v,
{
    match v {
        FieldValue::Text(s) => FieldValue::Text(s.clone()),
        FieldValue::Number(n) => FieldValue::Number(*n),
        FieldValue::Boolean(b) => FieldValue::Boolean(*b),
        FieldValue::Localization(s) => FieldValue::Localization(s.clone()),
        FieldValue::Actor(a) => FieldValue::Actor(*a),
    }
}

/// Name-value pairs read with their names as character sequences.
pub open spec fn named(s: Seq<(String, FieldValue)>) -> Seq<(Seq<char>, FieldValue)> {
    s.map_values(|p: (String, FieldValue)| (p.0@, p.1))
}

/// The store after seeding it with `vars` in order: each variable not yet
/// present gets its initial value; present ones keep theirs.
pub open spec fn seed_map(m: Map<Seq<char>, FieldValue>, vars: Seq<Variable>) -> Map<Seq<char>, FieldValue>
    decreases vars.len(),
{
    if vars.len() == 0 {
        m
    } else {
        let before = seed_map(m, vars.drop_last());
        let v = vars.last();
        if before.contains_key(v.name@) {
            before
        } else {
            before.insert(v.name@, v.initial)
        }
    }
}

/// Current variable values, keyed by name.
#[derive(Debug)]
pub struct Variables {
    /// Name-value pairs; a later pair for a name overrides an earlier one.
    pub(crate) entries: Vec<(String, FieldValue)>,
}

impl View for Variables {
    type V = Map<Seq<char>, FieldValue>;

    closed spec fn view(&self) -> Map<Seq<char>, FieldValue> {
        assoc_map(named(self.entries@))
    }
}

impl Variables {
    /// An empty store.
    pub fn new() -> (r: Variables)
        ensures
            r@ == Map::<Seq<char>, FieldValue>::empty(),
    {
        let r = Variables { entries: Vec::new() };
        assert(named(r.entries@) =~= Seq::empty());
        r
    }

    /// The last position holding `key`, searching from the end.
    fn position(&self, key: &String) -> (r: Option<usize>)
        ensures
            match r {
                Some(i) => is_last_key(named(self.entries@), key@, i as int),
                None => forall|j: int| 0 <= j < self.entries@.len() ==> (#[trigger] named(self.entries@)[j]).0 != key@,
            },
    {
        let n = self.entries.len();
        let mut i: usize = n;
        while i > 0
            invariant
                i <= n == self.entries@.len(),
                forall|j: int| i <= j < n ==> (#[trigger] named(self.entries@)[j]).0 != key@,
            decreases i,
        {
            i = i - 1;
            if self.entries[i].0 == *key {
                return Some(i);
            }
        }
        None
    }

    /// The current value of `name`, if it exists.
    pub fn get(&self, name: &str) -> (r: Option<&FieldValue>)
        ensures
            r is Some == self@.contains_key(name@),
            r is Some ==> *r->0 == self@[name@],
    {
        let key = name.to_owned();
        match self.position(&key) {
            Some(i) => {
                proof {
                    lemma_assoc_value(named(self.entries@), key@, i as int);
                }
                Some(&self.entries[i].1)
            },
            None => {
                proof {
                    lemma_assoc_dom(named(self.entries@), key@);
                }
                None
            },
        }
    }

    /// Sets `name` to `value`, creating the variable if needed.
    pub fn set(&mut self, name: &str, value: FieldValue)
        ensures
            final(self)@ == old(self)@.insert(name@, value),
    {
        let key = name.to_owned();
        match self.position(&key) {
            Some(i) => {
                proof {
                    lemma_assoc_update(named(self.entries@), key@, i as int, value);
                }
                let ghost before = self.entries@;
                self.entries.set(i, (key, value));
                proof {
                    assert(named(self.entries@) =~= named(before).update(i as int, (name@, value)));
                }
            },
            None => {
                let ghost before = self.entries@;
                self.entries.push((key, value));
                proof {
                    lemma_assoc_push(named(before), name@, value);
                    assert(named(self.entries@) =~= named(before).push((name@, value)));
                }
            },
        }
    }

    /// Whether `name` exists.
    fn has(&self, name: &String) -> (r: bool)
        ensures
            r == self@.contains_key(name@),
    {
        let found = self.position(name);
        proof {
            lemma_assoc_dom(named(self.entries@), name@);
            if let Some(i) = found {
                assert(named(self.entries@)[i as int].0 == name@);
            }
        }
        found.is_some()
    }

    /// The boolean value of `name`; `false` if missing or not a boolean.
    pub fn truthy(&self, name: &str) -> (r: bool)
        ensures
            r == (self@.contains_key(name@) && self@[name@] == FieldValue::Boolean(true)),
    {
        match self.get(name) {
            Some(FieldValue::Boolean(b)) => *b,
            _ => false,
        }
    }

    /// The numeric value of `name`, as the bits of an `f32`; the bits of
    /// `0.0` (zero) if missing or not a number.
    pub fn number(&self, name: &str) -> (r: u32)
        ensures
            r == (if self@.contains_key(name@) && self@[name@] is Number {
                self@[name@]->Number_0
            } else {
                0u32
            }),
    {
        match self.get(name) {
            Some(FieldValue::Number(n)) => *n,
            _ => 0,
        }
    }

    /// The text value of `name`; `""` if missing or not text.
    pub fn text(&self, name: &str) -> (r: &str)
        ensures
            r@ == (if self@.contains_key(name@) && self@[name@] is Text {
                self@[name@]->Text_0@
            } else {
                Seq::<char>::empty()
            }),
    {
        match self.get(name) {
            Some(FieldValue::Text(s)) => s.as_str(),
            _ => {
                proof {
                    reveal_strlit("");
                }
                ""
            },
        }
    }

    /// Adds `db`'s variables that aren't in the store yet, at their initial values.
    pub fn seed(&mut self, db: &DialogueDatabase)
        ensures
            final(self)@ == seed_map(old(self)@, db.variables@),
    {
        let ghost start = self@;
        let mut i: usize = 0;
        while i < db.variables.len()
            invariant
                i <= db.variables@.len(),
                self@ == seed_map(start, db.variables@.take(i as int)),
            decreases db.variables@.len() - i,
        {
            let variable = &db.variables[i];
            proof {
                assert(db.variables@.take(i + 1).drop_last() =~= db.variables@.take(i as int));
            }
            if !self.has(&variable.name) {
                let ghost before = self.entries@;
                self.entries.push((variable.name.clone(), copy_value(&variable.initial)));
                proof {
                    lemma_assoc_push(named(before), variable.name@, variable.initial);
                    assert(named(self.entries@) =~= named(before).push((variable.name@, variable.initial)));
                }
            }
            i = i + 1;
        }
        proof {
            assert(db.variables@.take(db.variables@.len() as int) =~= db.variables@);
        }
    }

    /// The name-value pairs of the store: a list whose map is the store.
    pub fn pairs(&self) -> (r: Vec<(String, FieldValue)>)
        ensures
            assoc_map(named(r@)) == self@,
    {
        let mut out: Vec<(String, FieldValue)> = Vec::new();
        let mut i: usize = 0;
        while i < self.entries.len()
            invariant
                i <= self.entries@.len(),
                out@ == self.entries@.take(i as int),
            decreases self.entries@.len() - i,
        {
            out.push((self.entries[i].0.clone(), copy_value(&self.entries[i].1)));
            proof {
                assert(out@ =~= self.entries@.take(i + 1));
            }
            i = i + 1;
        }
        proof {
            assert(self.entries@.take(self.entries@.len() as int) =~= self.entries@);
        }
        out
    }
}

/// Seeding never changes a value the store already holds.
pub proof fn law_seed_keeps_existing(m: Map<Seq<char>, FieldValue>, vars: Seq<Variable>, k: Seq<char>)
    requires
        m.contains_key(k),
    ensures
        seed_map(m, vars).contains_key(k),
        seed_map(m, vars)[k] == m[k],
    decreases vars.len(),
{
    if vars.len() > 0 {
        law_seed_keeps_existing(m, vars.drop_last(), k);
    }
}

/// After seeding, every variable of the database exists in the store.
pub proof fn law_seed_defines_all(m: Map<Seq<char>, FieldValue>, vars: Seq<Variable>, i: int)
    requires
        0 <= i < vars.len(),
    ensures
        seed_map(m, vars).contains_key(vars[i].name@),
    decreases vars.len(),
{
    if i < vars.len() - 1 {
        law_seed_defines_all(m, vars.drop_last(), i);
        assert(vars.drop_last()[i] == vars[i]);
    }
}

/// A store that already holds every variable is left unchanged by seeding.
pub proof fn lemma_seed_noop(m: Map<Seq<char>, FieldValue>, vars: Seq<Variable>)
    requires
        forall|i: int| 0 <= i < vars.len() ==> m.contains_key(#[trigger] vars[i].name@),
    ensures
        seed_map(m, vars) == m,
    decreases vars.len(),
{
    if vars.len() > 0 {
        assert forall|i: int| 0 <= i < vars.drop_last().len() implies m.contains_key(
            #[trigger] vars.drop_last()[i].name@,
        ) by {
            assert(vars.drop_last()[i] == vars[i]);
        }
        lemma_seed_noop(m, vars.drop_last());
        assert(m.contains_key(vars[vars.len() - 1].name@));
    }
}

/// Seeding twice with the same variables is seeding once.
pub proof fn law_seed_idempotent(m: Map<Seq<char>, FieldValue>, vars: Seq<Variable>)
    ensures
        seed_map(seed_map(m, vars), vars) == seed_map(m, vars),
{
    assert forall|i: int| 0 <= i < vars.len() implies seed_map(m, vars).contains_key(
        #[trigger] vars[i].name@,
    ) by {
        law_seed_defines_all(m, vars, i);
    }
    lemma_seed_noop(seed_map(m, vars), vars);
}

/// Reading a variable gives back the last value set for it; setting one
/// variable leaves every other variable as it was.
pub proof fn law_get_after_set(m: Map<Seq<char>, FieldValue>, name: Seq<char>, value: FieldValue, other: Seq<char>)
    ensures
        m.insert(name, value).contains_key(name),
        m.insert(name, value)[name] == value,
        other != name ==> (m.insert(name, value).contains_key(other) <==> m.contains_key(other)),
        other != name && m.contains_key(other) ==> m.insert(name, value)[other] == m[other],
{
}

/// Seeding adds exactly the database's names: a name is in the seeded store
/// when it was in the store or names a database variable; a name that no
/// database variable has keeps its value.
pub proof fn law_seed_domain(m: Map<Seq<char>, FieldValue>, vars: Seq<Variable>, k: Seq<char>)
    ensures
        seed_map(m, vars).contains_key(k) <==> (m.contains_key(k) || exists|j: int|
            0 <= j < vars.len() && (#[trigger] vars[j]).name@ == k),
        (forall|j: int| 0 <= j < vars.len() ==> (#[trigger] vars[j]).name@ != k) && m.contains_key(k) ==> seed_map(
            m,
            vars,
        )[k] == m[k],
    decreases vars.len(),
{
    if vars.len() > 0 {
        let p = vars.drop_last();
        law_seed_domain(m, p, k);
        if exists|j: int| 0 <= j < p.len() && (#[trigger] p[j]).name@ == k {
            let j = choose|j: int| 0 <= j < p.len() && (#[trigger] p[j]).name@ == k;
            assert(vars[j] == p[j]);
        }
        if exists|j: int| 0 <= j < vars.len() && (#[trigger] vars[j]).name@ == k {
            let j = choose|j: int| 0 <= j < vars.len() && (#[trigger] vars[j]).name@ == k;
            if j < vars.len() - 1 {
                assert(p[j] == vars[j]);
            }
        }
        if forall|j: int| 0 <= j < vars.len() ==> (#[trigger] vars[j]).name@ != k {
            assert forall|j: int| 0 <= j < p.len() implies (#[trigger] p[j]).name@ != k by {
                assert(p[j] == vars[j]);
            }
            assert(vars[vars.len() - 1].name@ != k);
        }
    }
}

/// Seeding gives a name missing from the store the initial value of the
/// first database variable with that name.
pub proof fn law_seed_first_wins(m: Map<Seq<char>, FieldValue>, vars: Seq<Variable>, i: int)
    requires
        0 <= i < vars.len(),
        !m.contains_key(vars[i].name@),
        forall|j: int| 0 <= j < i ==> (#[trigger] vars[j]).name@ != vars[i].name@,
    ensures
        seed_map(m, vars).contains_key(vars[i].name@),
        seed_map(m, vars)[vars[i].name@] == vars[i].initial,
    decreases vars.len(),
{
    let k = vars[i].name@;
    let p = vars.drop_last();
    if i < vars.len() - 1 {
        assert(p[i] == vars[i]);
        assert forall|j: int| 0 <= j < i implies (#[trigger] p[j]).name@ != p[i].name@ by {
            assert(p[j] == vars[j]);
        }
        law_seed_first_wins(m, p, i);
    } else {
        law_seed_domain(m, p, k);
        assert forall|j: int| 0 <= j < p.len() implies (#[trigger] p[j]).name@ != k by {
            assert(p[j] == vars[j]);
        }
    }
}

/// The predicate "is a variable named `k`".
pub open spec fn var_named(k: Seq<char>) -> spec_fn(Variable) -> bool {
    |v: Variable| v.name@ == k
}

/// Seeding a store: a name the store holds keeps its value; a missing name
/// that the database defines gets the initial value of the first database
/// variable with that name; no other name is added; and seeding again with
/// the same database changes nothing.
pub proof fn law_seed(m: Map<Seq<char>, FieldValue>, vars: Seq<Variable>, k: Seq<char>)
    ensures
        m.contains_key(k) ==> seed_map(m, vars).contains_key(k) && seed_map(m, vars)[k] == m[k],
        !m.contains_key(k) ==> match first_match(vars, var_named(k)) {
            Some(i) => seed_map(m, vars).contains_key(k) && seed_map(m, vars)[k] == vars[i].initial,
            None => !seed_map(m, vars).contains_key(k),
        },
        seed_map(seed_map(m, vars), vars) == seed_map(m, vars),
{
    if m.contains_key(k) {
        law_seed_keeps_existing(m, vars, k);
    } else {
        match first_match(vars, var_named(k)) {
            Some(i) => {
                let j = choose|j: int| is_first_match(vars, var_named(k), j);
                assert(is_first_match(vars, var_named(k), j));
                assert forall|q: int| 0 <= q < j implies (#[trigger] vars[q]).name@ != vars[j].name@ by {
                    assert(!var_named(k)(vars[q]));
                }
                law_seed_first_wins(m, vars, j);
            },
            None => {
                law_seed_domain(m, vars, k);
                if exists|q: int| 0 <= q < vars.len() && (#[trigger] vars[q]).name@ == k {
                    let q = choose|q: int| 0 <= q < vars.len() && (#[trigger] vars[q]).name@ == k;
                    crate::first::lemma_first_match_some(vars, var_named(k), q);
                }
            },
        }
    }
    law_seed_idempotent(m, vars);
}

} // verus!
