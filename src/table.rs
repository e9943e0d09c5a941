use vstd::prelude::*;

verus! {

/// The transition table as a mathematical map: each prefix to the suffixes
/// seen after it, in the order they were recorded, duplicates kept.
pub type Table = Map<Seq<char>, Seq<Seq<char>>>;

/// The table after one more occurrence of `suffix` following `prefix`.
pub open spec fn record(t: Table, prefix: Seq<char>, suffix: Seq<char>) -> Table {
    if t.contains_key(prefix) {
        t.insert(prefix, t[prefix].push(suffix))
    } else {
        t.insert(prefix, seq![suffix])
    }
}

/// The character sequences of a vector of strings.
pub open spec fn views(v: Seq<String>) -> Seq<Seq<char>> {
    v.map_values(|s: String| s@)
}

/// Recording a transition keeps every prefix and every suffix already there.
pub proof fn lemma_record_keeps(
    t: Table,
    prefix: Seq<char>,
    suffix: Seq<char>,
    k: Seq<char>,
    x: Seq<char>,
)
    requires
        t.contains_key(k),
    ensures
        record(t, prefix, suffix).contains_key(k),
        t[k].contains(x) ==> record(t, prefix, suffix)[k].contains(x),
{
    if t[k].contains(x) && k == prefix {
        let j = choose|j: int| 0 <= j < t[k].len() && t[k][j] == x;
        assert(record(t, prefix, suffix)[k][j] == x);
    }
}

/// Prefix-to-suffixes storage: a list of distinct prefixes and, at the same
/// position, the list of suffixes recorded after each.
pub struct TransitionTable {
    prefixes: Vec<String>,
    suffixes: Vec<Vec<String>>,
    map: Ghost<Table>,
}

impl View for TransitionTable {
    type V = Table;

    closed spec fn view(&self) -> Table {
        self.map@
    }
}

impl TransitionTable {
    /// Every prefix has `n_before` characters and at least one suffix, every
    /// suffix has `n_after`, and the two lists hold exactly what the map holds.
    pub closed spec fn wf(&self, n_before: nat, n_after: nat) -> bool {
        &&& self.prefixes@.len() == self.suffixes@.len()
        &&& forall|i: int, j: int|
            0 <= i < j < self.prefixes@.len() ==> self.prefixes@[i]@ != self.prefixes@[j]@
        &&& forall|i: int|
            0 <= i < self.prefixes@.len() ==> {
                &&& #[trigger] self.map@.contains_key(self.prefixes@[i]@)
                &&& self.map@[self.prefixes@[i]@] == views(self.suffixes@[i]@)
            }
        &&& forall|k: Seq<char>|
            #[trigger] self.map@.contains_key(k) ==> exists|i: int|
                0 <= i < self.prefixes@.len() && self.prefixes@[i]@ == k
        &&& forall|k: Seq<char>|
            #[trigger] self.map@.contains_key(k) ==> {
                &&& k.len() == n_before
                &&& self.map@[k].len() > 0
                &&& forall|j: int|
                    0 <= j < self.map@[k].len() ==> (#[trigger] self.map@[k][j]).len() == n_after
            }
    }

    /// An empty table.
    pub fn new() -> (r: Self)
        ensures
            r@ == Table::empty(),
            forall|n_before: nat, n_after: nat| r.wf(n_before, n_after),
    {
        TransitionTable { prefixes: Vec::new(), suffixes: Vec::new(), map: Ghost(Map::empty()) }
    }

    /// The position of `key` among the recorded prefixes, if it is one.
    fn find_prefix(&self, key: &String, Ghost(n_before): Ghost<nat>, Ghost(n_after): Ghost<nat>) -> (r:
        Option<usize>)
        requires
            self.wf(n_before, n_after),
        ensures
            r is None <==> !self@.contains_key(key@),
            r matches Some(i) ==> i < self.prefixes@.len() && self.prefixes@[i as int]@ == key@,
    {
        let mut i: usize = 0;
        while i < self.prefixes.len()
            invariant
                self.wf(n_before, n_after),
                i <= self.prefixes@.len(),
                forall|j: int| 0 <= j < i ==> self.prefixes@[j]@ != key@,
            decreases self.prefixes@.len() - i,
        {
            if self.prefixes[i] == *key {
                assert(self.map@.contains_key(self.prefixes@[i as int]@));
                return Some(i);
            }
            i = i + 1;
        }
        None
    }

    /// The suffixes recorded after `key`, or `None` if `key` was never seen.
    pub fn get(&self, key: &String, Ghost(n_before): Ghost<nat>, Ghost(n_after): Ghost<nat>) -> (r:
        Option<&Vec<String>>)
        requires
            self.wf(n_before, n_after),
        ensures
            r is None <==> !self@.contains_key(key@),
            r matches Some(v) ==> {
                &&& views(v@) == self@[key@]
                &&& v@.len() > 0
                &&& forall|j: int| 0 <= j < v@.len() ==> (#[trigger] v@[j])@.len() == n_after
            },
    {
        proof {
            if self@.contains_key(key@) {
                assert(forall|j: int|
                    0 <= j < self@[key@].len() ==> (#[trigger] self@[key@][j]).len() == n_after);
            }
        }
        match self.find_prefix(key, Ghost(n_before), Ghost(n_after)) {
            Some(i) => {
                let v = &self.suffixes[i];
                proof {
                    assert(views(v@).len() == v@.len());
                    assert forall|j: int| 0 <= j < v@.len() implies (#[trigger] v@[j])@.len()
                        == n_after by {
                        assert(views(v@)[j] == v@[j]@);
                    }
                }
                Some(v)
            },
            None => None,
        }
    }

    /// Records one occurrence of `suffix` following `prefix`.
    pub fn add(
        &mut self,
        prefix: String,
        suffix: String,
        Ghost(n_before): Ghost<nat>,
        Ghost(n_after): Ghost<nat>,
    )
        requires
            old(self).wf(n_before, n_after),
            prefix@.len() == n_before,
            suffix@.len() == n_after,
        ensures
            final(self).wf(n_before, n_after),
            final(self)@ == record(old(self)@, prefix@, suffix@),
    {
        let ghost t0 = self.map@;
        let ghost key = prefix@;
        let ghost value = suffix@;
        let ghost mut idx: int = 0;
        match self.find_prefix(&prefix, Ghost(n_before), Ghost(n_after)) {
            Some(i) => {
                self.suffixes[i].push(suffix);
                proof {
                    idx = i as int;
                }
                self.map = Ghost(t0.insert(key, t0[key].push(value)));
                assert(views(self.suffixes@[i as int]@) =~= t0[key].push(value));
            },
            None => {
                proof {
                    idx = self.prefixes@.len() as int;
                }
                self.prefixes.push(prefix);
                self.suffixes.push(vec![suffix]);
                self.map = Ghost(t0.insert(key, seq![value]));
                assert(views(self.suffixes@.last()@) =~= seq![value]);
            },
        }
        assert forall|k: Seq<char>| #[trigger] self.map@.contains_key(k) implies exists|i: int|
            0 <= i < self.prefixes@.len() && self.prefixes@[i]@ == k by {
            if k != key {
                let i = choose|i: int|
                    0 <= i < old(self).prefixes@.len() && old(self).prefixes@[i]@ == k;
                assert(self.prefixes@[i]@ == k);
            } else {
                assert(self.prefixes@[idx]@ == key);
            }
        }
        assert forall|j: int| 0 <= j < self.prefixes@.len() implies {
            &&& #[trigger] self.map@.contains_key(self.prefixes@[j]@)
            &&& self.map@[self.prefixes@[j]@] == views(self.suffixes@[j]@)
        } by {
            if j != idx {
                assert(self.prefixes@[j] == old(self).prefixes@[j]);
                assert(self.suffixes@[j] == old(self).suffixes@[j]);
                assert(old(self).map@.contains_key(old(self).prefixes@[j]@));
            }
        }
    }
}

} // verus!
