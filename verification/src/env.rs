//! Values by name, and the variables of an environment.

use vstd::prelude::*;

use crate::text::same_text;

verus! {

/// Values by name.
#[derive(Debug)]
pub struct NameMap<V> {
    vars: Vec<(String, V)>,
}

impl<V> View for NameMap<V> {
    type V = Map<Seq<char>, V>;

    closed spec fn view(&self) -> Map<Seq<char>, V> {
        Map::new(
            |name: Seq<char>| named(self.vars@, name),
            |name: Seq<char>| self.vars@[at_name(self.vars@, name)].1,
        )
    }
}

/// Whether a name is listed.
spec fn named<V>(vars: Seq<(String, V)>, name: Seq<char>) -> bool {
    exists|i: int| 0 <= i < vars.len() && (#[trigger] vars[i]).0@ == name
}

/// Where a name is listed.
spec fn at_name<V>(vars: Seq<(String, V)>, name: Seq<char>) -> int {
    choose|i: int| 0 <= i < vars.len() && (#[trigger] vars[i]).0@ == name
}

impl<V> NameMap<V> {
    /// No name is listed twice.
    pub closed spec fn wf(&self) -> bool {
        forall|i: int, j: int|
            0 <= i < j < self.vars@.len() ==> (#[trigger] self.vars@[i]).0@ != (
            #[trigger] self.vars@[j]).0@
    }

    /// No names.
    pub fn new() -> (map: NameMap<V>)
        ensures
            map.wf(),
            map@ == Map::<Seq<char>, V>::empty(),
    {
        let map = NameMap { vars: Vec::new() };
        assert(map@ =~= Map::<Seq<char>, V>::empty());
        map
    }

    /// Where a name is listed.
    fn find(&self, name: &str) -> (at: Option<usize>)
        requires
            self.wf(),
        ensures
            match at {
                Some(i) => i < self.vars@.len() && self.vars@[i as int].0@ == name@ && i
                    == at_name(self.vars@, name@) && named(self.vars@, name@),
                None => !named(self.vars@, name@),
            },
    {
        let mut at: usize = 0;
        while at < self.vars.len()
            invariant
                self.wf(),
                at <= self.vars@.len(),
                forall|i: int| 0 <= i < at ==> (#[trigger] self.vars@[i]).0@ != name@,
            decreases self.vars@.len() - at,
        {
            if same_text(self.vars[at].0.as_str(), name) {
                proof {
                    assert(self.vars@[at as int].0@ == name@);
                    let other = at_name(self.vars@, name@);
                    assert(self.vars@[other].0@ == name@);
                    if other < at {
                        assert(self.vars@[other].0@ != self.vars@[at as int].0@);
                    } else if at < other {
                        assert(self.vars@[at as int].0@ != self.vars@[other].0@);
                    }
                }
                return Some(at);
            }
            at += 1;
        }
        None
    }

    /// Gives a name a value; the last one counts.
    pub fn set(&mut self, name: String, value: V)
        requires
            old(self).wf(),
        ensures
            final(self).wf(),
            final(self)@ == old(self)@.insert(name@, value),
    {
        let ghost before = self.vars@;
        match self.find(name.as_str()) {
            Some(at) => {
                let ghost entry = (name, value);
                self.vars.set(at, (name, value));
                proof {
                    assert(self.vars@ =~= before.update(at as int, entry));
                    lemma_same_names(before, self.vars@);
                    assert(self@ =~= old(self)@.insert(entry.0@, entry.1)) by {
                        assert forall|n: Seq<char>| #[trigger] named(self.vars@, n) implies at_name(
                            self.vars@,
                            n,
                        ) == at_name(before, n) by {
                            lemma_at_name(self.vars@, at_name(before, n));
                            assert(named(before, n));
                        }
                        assert forall|n: Seq<char>| n != entry.0@ && #[trigger] named(
                            before,
                            n,
                        ) implies at_name(before, n) != at by {}
                        lemma_at_name(self.vars@, at as int);
                    }
                }
            },
            None => {
                let ghost entry = (name, value);
                self.vars.push((name, value));
                proof {
                    assert(self.vars@ =~= before.push(entry));
                    assert(self.wf()) by {
                        assert forall|i: int, j: int| 0 <= i < j < self.vars@.len() implies (
                        #[trigger] self.vars@[i]).0@ != (#[trigger] self.vars@[j]).0@ by {
                            if j < before.len() {
                                assert(before[i].0@ != before[j].0@);
                            } else {
                                assert(named(before, before[i].0@));
                            }
                        }
                    }
                    assert(self@ =~= old(self)@.insert(entry.0@, entry.1)) by {
                        assert forall|n: Seq<char>| #[trigger]
                            named(self.vars@, n) <==> named(before, n) || n == entry.0@ by {
                            if named(before, n) {
                                let i = at_name(before, n);
                                assert(self.vars@[i].0@ == n);
                            }
                            assert(self.vars@[before.len() as int].0@ == entry.0@);
                            if named(self.vars@, n) && n != entry.0@ {
                                let i = at_name(self.vars@, n);
                                assert(before[i].0@ == n);
                            }
                        }
                        assert forall|n: Seq<char>| #[trigger] named(before, n) implies at_name(
                            self.vars@,
                            n,
                        ) == at_name(before, n) by {
                            let i = at_name(before, n);
                            assert(self.vars@[i].0@ == n);
                            lemma_at_name(self.vars@, i);
                        }
                        lemma_at_name(self.vars@, before.len() as int);
                    }
                }
            },
        }
    }

    /// The number of names.
    pub fn len(&self) -> (len: usize)
        requires
            self.wf(),
        ensures
            len == self@.len(),
            self@.dom().finite(),
    {
        proof {
            lemma_len(self.vars@);
            assert(self@.dom() =~= names_of(self.vars@));
        }
        self.vars.len()
    }

    /// The value of a name.
    pub fn get(&self, name: &str) -> (value: Option<&V>)
        requires
            self.wf(),
        ensures
            match value {
                Some(found) => self@.contains_key(name@) && self@[name@] == *found,
                None => !self@.contains_key(name@),
            },
    {
        match self.find(name) {
            Some(at) => Some(&self.vars[at].1),
            None => None,
        }
    }
}

proof fn lemma_at_name<V>(vars: Seq<(String, V)>, i: int)
    requires
        0 <= i < vars.len(),
        forall|a: int, b: int|
            0 <= a < b < vars.len() ==> (#[trigger] vars[a]).0@ != (#[trigger] vars[b]).0@,
    ensures
        named(vars, vars[i].0@),
        at_name(vars, vars[i].0@) == i,
{
    let j = at_name(vars, vars[i].0@);
    assert(vars[j].0@ == vars[i].0@);
    if j < i {
        assert(vars[j].0@ != vars[i].0@);
    } else if i < j {
        assert(vars[i].0@ != vars[j].0@);
    }
}

proof fn lemma_same_names<V>(before: Seq<(String, V)>, after: Seq<(String, V)>)
    requires
        before.len() == after.len(),
        forall|i: int| 0 <= i < before.len() ==> (#[trigger] before[i]).0@ == after[i].0@,
    ensures
        forall|n: Seq<char>| #[trigger] named(before, n) == named(after, n),
{
    assert forall|n: Seq<char>| #[trigger] named(before, n) == named(after, n) by {
        if named(before, n) {
            let i = at_name(before, n);
            assert(before[i].0@ == n);
            assert(after[i].0@ == n);
        }
        if named(after, n) {
            let i = at_name(after, n);
            assert(after[i].0@ == n);
            assert(before[i].0@ == n);
        }
    }
}

/// The names of a list.
spec fn names_of<V>(vars: Seq<(String, V)>) -> Set<Seq<char>> {
    Set::new(|name: Seq<char>| named(vars, name))
}

proof fn lemma_len<V>(vars: Seq<(String, V)>)
    requires
        forall|a: int, b: int|
            0 <= a < b < vars.len() ==> (#[trigger] vars[a]).0@ != (#[trigger] vars[b]).0@,
    ensures
        names_of(vars).finite(),
        names_of(vars).len() == vars.len(),
    decreases vars.len(),
{
    if vars.len() == 0 {
        assert(names_of(vars) =~= Set::<Seq<char>>::empty());
    } else {
        let rest = vars.drop_last();
        lemma_len(rest);
        let last = vars.last().0@;
        assert(!names_of(rest).contains(last)) by {
            if named(rest, last) {
                let i = at_name(rest, last);
                assert(rest[i] == vars[i]);
                assert(vars[i].0@ != vars[vars.len() - 1].0@);
            }
        }
        assert(names_of(vars) =~= names_of(rest).insert(last)) by {
            assert forall|n: Seq<char>| #[trigger]
                names_of(vars).contains(n) <==> names_of(rest).insert(last).contains(n) by {
                if named(vars, n) {
                    let i = at_name(vars, n);
                    if i < rest.len() {
                        assert(rest[i].0@ == n);
                    }
                }
                if named(rest, n) {
                    let i = at_name(rest, n);
                    assert(vars[i].0@ == n);
                }
                assert(vars[vars.len() - 1].0@ == last);
            }
        }
    }
}

/// Names with texts, as an environment holds them.
#[derive(Debug)]
pub struct Env {
    vars: NameMap<String>,
}

impl View for Env {
    type V = Map<Seq<char>, Seq<char>>;

    closed spec fn view(&self) -> Map<Seq<char>, Seq<char>> {
        self.vars@.map_values(|text: String| text@)
    }
}

impl Env {
    /// The environment's invariant.
    pub closed spec fn wf(&self) -> bool {
        self.vars.wf()
    }

    /// No variables.
    pub fn new() -> (env: Env)
        ensures
            env.wf(),
            env@ == Map::<Seq<char>, Seq<char>>::empty(),
    {
        let env = Env { vars: NameMap::new() };
        assert(env@ =~= Map::<Seq<char>, Seq<char>>::empty());
        env
    }

    /// Gives a variable a value; the last one counts.
    pub fn set(&mut self, name: String, value: String)
        requires
            old(self).wf(),
        ensures
            final(self).wf(),
            final(self)@ == old(self)@.insert(name@, value@),
    {
        let ghost key = name@;
        let ghost text = value@;
        self.vars.set(name, value);
        assert(self@ =~= old(self)@.insert(key, text));
    }

    /// The value of a variable.
    pub fn get(&self, name: &str) -> (value: Option<&str>)
        requires
            self.wf(),
        ensures
            match value {
                Some(text) => self@.contains_key(name@) && self@[name@] == text@,
                None => !self@.contains_key(name@),
            },
    {
        match self.vars.get(name) {
            Some(text) => Some(text.as_str()),
            None => None,
        }
    }
}

} // verus!
