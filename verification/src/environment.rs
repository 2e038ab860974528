//! The store of shell variables: a value and an export flag for each name.

use vstd::prelude::*;

verus! {

/// What the store holds for one name.
pub struct VarView {
    pub value: Seq<char>,
    pub is_exported: bool,
}

struct Var {
    value: String,
    is_exported: bool,
}

impl View for Var {
    type V = VarView;

    closed spec fn view(&self) -> VarView {
        VarView { value: self.value@, is_exported: self.is_exported }
    }
}

impl Var {
    fn new(value: String, is_exported: bool) -> (var: Self)
        ensures
            var@ == (VarView { value: value@, is_exported }),
    {
        Self { value, is_exported }
    }
}

struct Entry {
    name: String,
    var: Var,
}

/// The map that a list of entries with distinct names stands for.
spec fn table(entries: Seq<Entry>) -> Map<Seq<char>, VarView> {
    Map::new(
        |name: Seq<char>| exists|i: int| 0 <= i < entries.len() && (#[trigger] entries[i]).name@ == name,
        |name: Seq<char>|
            {
                let i = choose|i: int| 0 <= i < entries.len() && (#[trigger] entries[i]).name@ == name;
                entries[i].var@
            },
    )
}

/// No name occurs twice.
spec fn distinct(entries: Seq<Entry>) -> bool {
    forall|i: int, j: int|
        0 <= i < j < entries.len() ==> (#[trigger] entries[i]).name@ != (#[trigger] entries[j]).name@
}

/// Each entry is found in the table under its name.
proof fn lemma_table_entry(entries: Seq<Entry>, i: int)
    requires
        distinct(entries),
        0 <= i < entries.len(),
    ensures
        table(entries).dom().contains(entries[i].name@),
        table(entries)[entries[i].name@] == entries[i].var@,
{
    let name = entries[i].name@;
    let j = choose|j: int| 0 <= j < entries.len() && (#[trigger] entries[j]).name@ == name;
    assert(i == j);
}

/// The variables that a process inherits: each pair exported, a later pair replacing an
/// earlier one of the same name.
pub open spec fn inherited(pairs: Seq<(String, String)>) -> Map<Seq<char>, VarView>
    decreases pairs.len(),
{
    if pairs.len() == 0 {
        Map::empty()
    } else {
        inherited(pairs.drop_last()).insert(
            pairs.last().0@,
            VarView { value: pairs.last().1@, is_exported: true },
        )
    }
}

/// The name of the variable that holds the home directory.
pub open spec fn home_name() -> Seq<char> {
    seq!['H', 'O', 'M', 'E']
}

/// The name of the variable that holds the search path.
pub open spec fn path_name() -> Seq<char> {
    seq!['P', 'A', 'T', 'H']
}

/// The store after `name` is assigned `value`: a variable that exists keeps its export
/// flag, a new one is not exported.
pub open spec fn assigned(vars: Map<Seq<char>, VarView>, name: Seq<char>, value: Seq<char>) -> Map<
    Seq<char>,
    VarView,
> {
    vars.insert(
        name,
        VarView { value, is_exported: vars.dom().contains(name) && vars[name].is_exported },
    )
}

/// The store after `name` is exported: with the value given, or else with the value it
/// has, or with the empty value where it is new.
pub open spec fn exported(
    vars: Map<Seq<char>, VarView>,
    name: Seq<char>,
    value: Option<Seq<char>>,
) -> Map<Seq<char>, VarView> {
    vars.insert(
        name,
        VarView {
            value: match value {
                Some(value) => value,
                None => if vars.dom().contains(name) {
                    vars[name].value
                } else {
                    Seq::empty()
                },
            },
            is_exported: true,
        },
    )
}

pub struct Environment {
    entries: Vec<Entry>,
}

impl View for Environment {
    type V = Map<Seq<char>, VarView>;

    closed spec fn view(&self) -> Map<Seq<char>, VarView> {
        table(self.entries@)
    }
}

impl Environment {
    #[verifier::type_invariant]
    spec fn inv(&self) -> bool {
        distinct(self.entries@)
    }

    /// The store that a process starts with: every inherited variable, exported.
    pub fn new(vars: Vec<(String, String)>) -> (env: Self)
        ensures
            env@ == inherited(vars@),
    {
        let mut env = Self { entries: Vec::new() };
        assert(env@ =~= Map::empty());
        let mut i: usize = 0;
        while i < vars.len()
            invariant
                i <= vars.len(),
                env@ == inherited(vars@.take(i as int)),
            decreases vars.len() - i,
        {
            let value = vars[i].1.clone();
            env.put(vars[i].0.as_str(), Var::new(value, true));
            proof {
                assert(vars@.take(i + 1).drop_last() =~= vars@.take(i as int));
            }
            i += 1;
        }
        proof {
            assert(vars@.take(vars.len() as int) =~= vars@);
        }
        env
    }

    /// The value of `name`, if it is set.
    pub fn get(&self, name: &str) -> (value: Option<&str>)
        ensures
            value is Some <==> self@.dom().contains(name@),
            value is Some ==> value->0@ == self@[name@].value,
    {
        proof {
            use_type_invariant(&*self);
        }
        match self.find(name) {
            Some(i) => {
                proof {
                    lemma_table_entry(self.entries@, i as int);
                }
                Some(self.entries[i].var.value.as_str())
            },
            None => None,
        }
    }

    /// Gives `name` the value `value`. A variable that exists keeps its export flag; a new
    /// one is not exported.
    pub fn assign(&mut self, name: &str, value: String)
        ensures
            final(self)@ == assigned(old(self)@, name@, value@),
    {
        proof {
            use_type_invariant(&*self);
        }
        let is_exported = match self.find(name) {
            Some(i) => {
                proof {
                    lemma_table_entry(self.entries@, i as int);
                }
                self.entries[i].var.is_exported
            },
            None => false,
        };
        self.put(name, Var::new(value, is_exported));
    }

    /// Exports `name`: with `value` where one is given, else with the value it has, or with
    /// the empty value where it is new.
    pub fn export(&mut self, name: &str, value: Option<String>)
        ensures
            final(self)@ == exported(old(self)@, name@, value.deep_view()),
    {
        proof {
            use_type_invariant(&*self);
        }
        let value = match value {
            Some(value) => value,
            None => match self.find(name) {
                Some(i) => {
                    proof {
                        lemma_table_entry(self.entries@, i as int);
                    }
                    self.entries[i].var.value.clone()
                },
                None => String::new(),
            },
        };
        self.put(name, Var::new(value, true));
    }

    /// The home directory: the value of `HOME`, which has to be set.
    pub fn home(&self) -> (dir: &str)
        requires
            self@.dom().contains(home_name()),
        ensures
            dir@ == self@[home_name()].value,
    {
        proof {
            reveal_strlit("HOME");
            assert("HOME"@ =~= home_name());
        }
        match self.get("HOME") {
            Some(dir) => dir,
            None => "",
        }
    }

    /// The search path: the value of `PATH`, or the empty string where it is not set.
    pub fn path(&self) -> (path: &str)
        ensures
            path@ == if self@.dom().contains(path_name()) {
                self@[path_name()].value
            } else {
                Seq::empty()
            },
    {
        proof {
            reveal_strlit("PATH");
            reveal_strlit("");
            assert("PATH"@ =~= path_name());
            assert(""@ =~= Seq::<char>::empty());
        }
        match self.get("PATH") {
            Some(value) => value,
            None => "",
        }
    }

    /// The name and value of every exported variable, each once, in no particular order.
    pub fn iter_exported(&self) -> (pairs: Vec<(&str, &str)>)
        ensures
            forall|k: int|
                0 <= k < pairs.len() ==> self@.dom().contains((#[trigger] pairs[k]).0@) && self@[pairs[k].0@]
                    == (VarView { value: pairs[k].1@, is_exported: true }),
            forall|name: Seq<char>|
                self@.dom().contains(name) && self@[name].is_exported ==> exists|k: int|
                    0 <= k < pairs.len() && (#[trigger] pairs[k]).0@ == name,
            forall|k: int, l: int|
                0 <= k < l < pairs.len() ==> (#[trigger] pairs[k]).0@ != (#[trigger] pairs[l]).0@,
    {
        proof {
            use_type_invariant(&*self);
        }
        let mut pairs: Vec<(&str, &str)> = Vec::new();
        let ghost mut from: Seq<int> = Seq::empty();
        let mut i: usize = 0;
        while i < self.entries.len()
            invariant
                i <= self.entries.len(),
                distinct(self.entries@),
                from.len() == pairs.len(),
                forall|k: int|
                    0 <= k < pairs.len() ==> 0 <= #[trigger] from[k] < i && self.entries[from[k]].var.is_exported
                        && pairs[k].0@ == self.entries[from[k]].name@ && pairs[k].1@
                        == self.entries[from[k]].var.value@,
                forall|k: int, l: int| 0 <= k < l < from.len() ==> #[trigger] from[k] < #[trigger] from[l],
                forall|j: int|
                    0 <= j < i && (#[trigger] self.entries[j]).var.is_exported ==> exists|k: int|
                        0 <= k < pairs.len() && #[trigger] from[k] == j,
            decreases self.entries.len() - i,
        {
            if self.entries[i].var.is_exported {
                let ghost before = from;
                pairs.push((self.entries[i].name.as_str(), self.entries[i].var.value.as_str()));
                proof {
                    from = from.push(i as int);
                    assert forall|j: int|
                        0 <= j < i + 1 && (#[trigger] self.entries[j]).var.is_exported implies exists|
                        k: int,
                    | 0 <= k < pairs.len() && #[trigger] from[k] == j by {
                        if j < i {
                            let k = choose|k: int| 0 <= k < before.len() && #[trigger] before[k] == j;
                            assert(from[k] == j);
                        } else {
                            assert(from[from.len() - 1] == j);
                        }
                    }
                }
            }
            i += 1;
        }
        proof {
            assert forall|k: int| 0 <= k < pairs.len() implies self@.dom().contains(
                (#[trigger] pairs[k]).0@,
            ) && self@[pairs[k].0@] == (VarView { value: pairs[k].1@, is_exported: true }) by {
                lemma_table_entry(self.entries@, from[k]);
            }
            assert forall|name: Seq<char>|
                self@.dom().contains(name) && self@[name].is_exported implies exists|k: int|
                0 <= k < pairs.len() && (#[trigger] pairs[k]).0@ == name by {
                let j = choose|j: int|
                    0 <= j < self.entries.len() && (#[trigger] self.entries[j]).name@ == name;
                lemma_table_entry(self.entries@, j);
                let k = choose|k: int| 0 <= k < pairs.len() && #[trigger] from[k] == j;
                assert(pairs[k].0@ == name);
            }
            assert forall|k: int, l: int| 0 <= k < l < pairs.len() implies (#[trigger] pairs[k]).0@ != (
            #[trigger] pairs[l]).0@ by {
                assert(from[k] < from[l]);
                assert(self.entries[from[k]].name@ != self.entries[from[l]].name@);
            }
        }
        pairs
    }

    /// The index of the entry for `name`, if there is one.
    fn find(&self, name: &str) -> (found: Option<usize>)
        ensures
            match found {
                Some(i) => i < self.entries.len() && self.entries[i as int].name@ == name@,
                None => !self@.dom().contains(name@),
            },
    {
        let mut i: usize = 0;
        while i < self.entries.len()
            invariant
                i <= self.entries.len(),
                forall|k: int| 0 <= k < i ==> (#[trigger] self.entries[k]).name@ != name@,
            decreases self.entries.len() - i,
        {
            if self.entries[i].name.as_str().eq(name) {
                return Some(i);
            }
            i += 1;
        }
        None
    }

    /// Sets the entry for `name` to `var`, whether or not there was one.
    fn put(&mut self, name: &str, var: Var)
        ensures
            final(self)@ == old(self)@.insert(name@, var@),
    {
        proof {
            use_type_invariant(&*self);
        }
        let found = self.find(name);
        let mut entries: Vec<Entry> = Vec::new();
        std::mem::swap(&mut entries, &mut self.entries);
        let ghost before = entries@;
        let entry = Entry { name: name.to_owned(), var };
        match found {
            Some(i) => {
                entries.set(i, entry);
            },
            None => {
                entries.push(entry);
            },
        }
        proof {
            let after = entries@;
            assert(distinct(after));
            assert forall|n: Seq<char>| table(after).dom().contains(n) <==> table(before).insert(
                name@,
                var@,
            ).dom().contains(n) by {
                if table(after).dom().contains(n) {
                    let k = choose|k: int| 0 <= k < after.len() && (#[trigger] after[k]).name@ == n;
                    if n != name@ {
                        assert(before[k].name@ == n);
                    }
                }
                if table(before).dom().contains(n) {
                    let k = choose|k: int| 0 <= k < before.len() && (#[trigger] before[k]).name@ == n;
                    assert(after[k].name@ == n);
                }
                if n == name@ {
                    match found {
                        Some(i) => {
                            assert(after[i as int].name@ == n);
                        },
                        None => {
                            assert(after[after.len() - 1].name@ == n);
                        },
                    }
                }
            }
            assert forall|n: Seq<char>| #[trigger] table(after).dom().contains(n) implies table(after)[n]
                == table(before).insert(name@, var@)[n] by {
                let k = choose|k: int| 0 <= k < after.len() && (#[trigger] after[k]).name@ == n;
                lemma_table_entry(after, k);
                if n != name@ {
                    assert(before[k].name@ == n);
                    lemma_table_entry(before, k);
                } else {
                    match found {
                        Some(i) => {
                            lemma_table_entry(after, i as int);
                        },
                        None => {
                            lemma_table_entry(after, after.len() - 1);
                        },
                    }
                }
            }
            assert(table(after) =~= table(before).insert(name@, var@));
        }
        self.entries = entries;
    }
}

} // verus!
