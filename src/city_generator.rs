use vstd::arithmetic::mul::lemma_mul_is_distributive_add_other_way;
use vstd::prelude::*;
use vstd::string::*;

use crate::errors::{ChainError, WordError};
use crate::table::{lemma_record_keeps, record, views, Table, TransitionTable};
use crate::random::{choose_one, random_in_range};

verus! {

/// The prefix of the window of `w` that starts at `i`.
pub open spec fn window_prefix(w: Seq<char>, n_before: nat, i: int) -> Seq<char> {
    w.subrange(i, i + n_before)
}

/// The suffix of the window of `w` that starts at `i`.
pub open spec fn window_suffix(w: Seq<char>, n_before: nat, n_after: nat, i: int) -> Seq<char> {
    w.subrange(i + n_before, i + n_before + n_after)
}

/// How many windows of width `n_before + n_after` a word of `len` characters has.
pub open spec fn window_count(len: nat, n_before: nat, n_after: nat) -> nat {
    if len >= n_before + n_after {
        (len - n_before - n_after + 1) as nat
    } else {
        0
    }
}

/// The table after recording the first `count` windows of `w`, left to right.
pub open spec fn record_windows(t: Table, w: Seq<char>, n_before: nat, n_after: nat, count: nat) -> Table
    decreases count,
{
    if count == 0 {
        t
    } else {
        let i = count - 1;
        record(
            record_windows(t, w, n_before, n_after, (count - 1) as nat),
            window_prefix(w, n_before, i),
            window_suffix(w, n_before, n_after, i),
        )
    }
}

/// The last `n` characters of `w`.
pub open spec fn last_window(w: Seq<char>, n: nat) -> Seq<char> {
    w.subrange(w.len() - n, w.len() as int)
}

/// `w` is a start drawn from `starts` followed by `k` suffixes, each of which
/// the table records after the `n_before` characters that precede it.
pub open spec fn is_walk(
    t: Table,
    starts: Seq<Seq<char>>,
    n_before: nat,
    n_after: nat,
    w: Seq<char>,
    k: nat,
) -> bool
    decreases k,
{
    if k == 0 {
        starts.contains(w)
    } else {
        let p = w.subrange(0, w.len() - n_after);
        &&& w.len() >= n_after
        &&& is_walk(t, starts, n_before, n_after, p, (k - 1) as nat)
        &&& t.contains_key(last_window(p, n_before))
        &&& t[last_window(p, n_before)].contains(w.subrange(w.len() - n_after, w.len() as int))
    }
}

/// The word reached from `w` by at most `steps` extensions, where the `j`-th
/// extension appends the suffix at position `picks[j]` (modulo the number of
/// suffixes) among those recorded after the last `n_before` characters. The
/// walk ends early when the picks run out or the last `n_before` characters
/// were never seen as a prefix.
pub open spec fn walk(t: Table, n_before: nat, w: Seq<char>, steps: nat, picks: Seq<usize>, j: nat) -> Seq<char>
    decreases steps,
{
    if steps == 0 || j >= picks.len() || !t.contains_key(last_window(w, n_before)) {
        w
    } else {
        let options = t[last_window(w, n_before)];
        walk(
            t,
            n_before,
            w + options[picks[j as int] as int % options.len() as int],
            (steps - 1) as nat,
            picks,
            j + 1,
        )
    }
}

/// The number of extension attempts a sample with target length `target` makes.
pub open spec fn step_budget(target: nat, n_before: nat, n_after: nat) -> nat {
    let size = target / n_after;
    if size >= n_before {
        (size - n_before + 1) as nat
    } else {
        0
    }
}

/// Each of the first `count` windows of `w` is in `t`: the table holds the
/// window's prefix, and the window's suffix among that prefix's suffixes.
pub open spec fn holds_windows(t: Table, w: Seq<char>, n_before: nat, n_after: nat, count: nat) -> bool {
    forall|i: int|
        0 <= i < count ==> {
            &&& t.contains_key(#[trigger] window_prefix(w, n_before, i))
            &&& t[window_prefix(w, n_before, i)].contains(window_suffix(w, n_before, n_after, i))
        }
}

/// Training on `w` records every window of `w`: for each start `i`, the
/// suffix that follows the prefix at `i` is among the suffixes the table
/// holds for that prefix. Whatever the table held before is kept.
pub proof fn lemma_windows_recorded(t: Table, w: Seq<char>, n_before: nat, n_after: nat, count: nat)
    ensures
        holds_windows(record_windows(t, w, n_before, n_after, count), w, n_before, n_after, count),
        forall|k: Seq<char>|
            #[trigger] t.contains_key(k) ==> record_windows(t, w, n_before, n_after, count).contains_key(k),
    decreases count,
{
    if count > 0 {
        let c = (count - 1) as nat;
        lemma_windows_recorded(t, w, n_before, n_after, c);
        let prev = record_windows(t, w, n_before, n_after, c);
        let p = window_prefix(w, n_before, c as int);
        let s = window_suffix(w, n_before, n_after, c as int);
        let r = record(prev, p, s);
        assert forall|i: int| 0 <= i < count implies {
            &&& r.contains_key(#[trigger] window_prefix(w, n_before, i))
            &&& r[window_prefix(w, n_before, i)].contains(window_suffix(w, n_before, n_after, i))
        } by {
            if i < c {
                lemma_record_keeps(prev, p, s, window_prefix(w, n_before, i), window_suffix(w, n_before, n_after, i));
            } else {
                assert(r[p].last() == s);
                assert(r[p][r[p].len() - 1] == s);
            }
        }
        assert forall|k: Seq<char>| #[trigger] t.contains_key(k) implies record_windows(t, w, n_before, n_after, count).contains_key(k) by {
            lemma_record_keeps(prev, p, s, k, seq![]);
        }
    }
}

/// A variable-order n-gram Markov model over characters.
///
/// Training records, for every window of a word, which `n_after` characters
/// followed which `n_before` characters; sampling walks those transitions from
/// a recorded starting prefix.
pub struct CityGenerator {
    hash_map: TransitionTable,
    starting_ngrams: Vec<String>,
    n_before: usize,
    n_after: usize,
    min_len: usize,
    max_len: usize,
}

impl CityGenerator {
    /// The transition table.
    pub closed spec fn table(&self) -> Table {
        self.hash_map@
    }

    /// The starting-prefix pool, one entry per trained word.
    pub closed spec fn starts(&self) -> Seq<Seq<char>> {
        views(self.starting_ngrams@)
    }

    /// The prefix width.
    pub closed spec fn before(&self) -> nat {
        self.n_before as nat
    }

    /// The suffix width.
    pub closed spec fn after(&self) -> nat {
        self.n_after as nat
    }

    /// The least trained word length (`usize::MAX` before any training).
    pub closed spec fn shortest(&self) -> nat {
        self.min_len as nat
    }

    /// The greatest trained word length (0 before any training).
    pub closed spec fn longest(&self) -> nat {
        self.max_len as nat
    }

    /// `w` is a starting prefix followed by some number of suffixes, each
    /// recorded after the `n_before` characters that precede it.
    pub open spec fn is_chain(&self, w: Seq<char>) -> bool {
        exists|k: nat| #[trigger] is_walk(self.table(), self.starts(), self.before(), self.after(), w, k)
    }

    /// `w` is an outcome of sampling: for some target length between the
    /// trained bounds, `w` walks the table from a starting prefix for at most
    /// that target's step budget, and stops short of the budget only where its
    /// last `n_before` characters were never seen as a prefix.
    pub open spec fn is_sample(&self, w: Seq<char>) -> bool {
        exists|target: nat, k: nat|
            {
                &&& self.shortest() <= target <= self.longest()
                &&& k <= #[trigger] step_budget(target, self.before(), self.after())
                &&& #[trigger] is_walk(self.table(), self.starts(), self.before(), self.after(), w, k)
                &&& w.len() == self.before() + k * self.after()
                &&& k < step_budget(target, self.before(), self.after()) ==> !self.table().contains_key(
                    last_window(w, self.before()),
                )
            }
    }

    /// The model's internal invariant.
    pub closed spec fn wf(&self) -> bool {
        &&& self.n_before >= 1
        &&& self.n_after >= 1
        &&& self.n_before + self.n_after <= usize::MAX
        &&& self.hash_map.wf(self.n_before as nat, self.n_after as nat)
        &&& forall|i: int|
            0 <= i < self.starts().len() ==> {
                &&& (#[trigger] self.starts()[i]).len() == self.n_before
                &&& self.hash_map@.contains_key(self.starts()[i])
            }
        &&& self.starts().len() > 0 ==> self.min_len <= self.max_len
    }

    /// Creates an untrained model that reads `n_b` characters to choose the
    /// next `n_a`.
    pub fn new(n_b: usize, n_a: usize) -> (r: Self)
        requires
            n_b >= 1,
            n_a >= 1,
            n_b + n_a <= usize::MAX,
        ensures
            r.wf(),
            r.before() == n_b,
            r.after() == n_a,
            r.table() == Table::empty(),
            r.starts() == Seq::<Seq<char>>::empty(),
            r.shortest() == usize::MAX,
            r.longest() == 0,
    {
        let r = CityGenerator {
            hash_map: TransitionTable::new(),
            starting_ngrams: Vec::new(),
            n_before: n_b,
            n_after: n_a,
            min_len: usize::MAX,
            max_len: usize::MIN,
        };
        assert(r.starts() =~= Seq::<Seq<char>>::empty());
        r
    }

    /// Trains the model on `word`, read character by character.
    ///
    /// A word shorter than `n_before + n_after` is rejected and leaves the
    /// model as it was. Otherwise every window of the word is recorded, the
    /// word's first `n_before` characters join the starting-prefix pool and the
    /// length bounds take in the word's length.
    pub fn add_word(&mut self, word: &str) -> (r: Result<(), WordError>)
        requires
            old(self).wf(),
        ensures
            final(self).wf(),
            final(self).before() == old(self).before(),
            final(self).after() == old(self).after(),
            r is Err <==> word@.len() < old(self).before() + old(self).after(),
            r is Err ==> r == Err::<(), WordError>(
                WordError::TooSmall {
                    length: word@.len() as usize,
                    minimum: (old(self).before() + old(self).after()) as usize,
                },
            ),
            r is Err ==> *final(self) == *old(self),
            r is Ok ==> final(self).table() == record_windows(
                old(self).table(),
                word@,
                old(self).before(),
                old(self).after(),
                window_count(word@.len(), old(self).before(), old(self).after()),
            ),
            r is Ok ==> final(self).starts() == old(self).starts().push(
                word@.subrange(0, old(self).before() as int),
            ),
            r is Ok ==> final(self).shortest() == if word@.len() < old(self).shortest() {
                word@.len()
            } else {
                old(self).shortest()
            },
            r is Ok ==> final(self).longest() == if word@.len() > old(self).longest() {
                word@.len()
            } else {
                old(self).longest()
            },
            r is Ok ==> holds_windows(
                final(self).table(),
                word@,
                old(self).before(),
                old(self).after(),
                window_count(word@.len(), old(self).before(), old(self).after()),
            ),
    {
        let word_size = word.unicode_len();
        let n_before = self.n_before;
        let n_after = self.n_after;
        if word_size < n_before + n_after {
            return Err(WordError::TooSmall { length: word_size, minimum: n_before + n_after });
        }
        if word_size < self.min_len {
            self.min_len = word_size;
        }
        if word_size > self.max_len {
            self.max_len = word_size;
        }
        let ghost t0 = self.hash_map@;
        let ghost w = word@;
        let count = word_size - n_after - n_before + 1;
        let mut i: usize = 0;
        while i < count
            invariant
                self.wf(),
                word_size == w.len(),
                word@ == w,
                count == window_count(w.len(), n_before as nat, n_after as nat),
                i <= count,
                self.n_before == n_before,
                self.n_after == n_after,
                self.starting_ngrams == old(self).starting_ngrams,
                self.min_len == (if word_size < old(self).min_len { word_size } else { old(self).min_len }),
                self.max_len == (if word_size > old(self).max_len { word_size } else { old(self).max_len }),
                self.hash_map@ == record_windows(t0, w, n_before as nat, n_after as nat, i as nat),
            decreases count - i,
        {
            let before = String::from_str(word.substring_char(i, i + n_before));
            let after = String::from_str(word.substring_char(i + n_before, i + n_before + n_after));
            let ghost prev = self.hash_map@;
            let ghost starts = self.starts();
            let ghost (bv, av) = (before@, after@);
            assert(forall|j: int| 0 <= j < starts.len() ==> prev.contains_key(#[trigger] starts[j]));
            self.hash_map.add(before, after, Ghost(n_before as nat), Ghost(n_after as nat));
            assert(self.starts() == starts);
            assert forall|j: int| 0 <= j < starts.len() implies self.hash_map@.contains_key(
                #[trigger] starts[j],
            ) by {
                lemma_record_keeps(prev, bv, av, starts[j], seq![]);
            }
            i = i + 1;
        }
        let start = String::from_str(word.substring_char(0, n_before));
        proof {
            lemma_windows_recorded(t0, w, n_before as nat, n_after as nat, count as nat);
            assert(start@ == window_prefix(w, n_before as nat, 0));
        }
        self.starting_ngrams.push(start);
        assert(self.starts() =~= old(self).starts().push(start@));
        assert(self.hash_map@.contains_key(start@));
        assert forall|j: int| 0 <= j < self.starts().len() implies {
            &&& (#[trigger] self.starts()[j]).len() == self.n_before
            &&& self.hash_map@.contains_key(self.starts()[j])
        } by {
            if j < old(self).starts().len() {
                assert(self.starts()[j] == old(self).starts()[j]);
            }
        }
        Ok(())
    }
    /// The suffixes recorded after `prefix`, or `None` if no trained word
    /// holds `prefix` followed by a suffix.
    pub fn transitions(&self, prefix: &str) -> (r: Option<&Vec<String>>)
        requires
            self.wf(),
        ensures
            r is None <==> !self.table().contains_key(prefix@),
            r matches Some(v) ==> {
                &&& views(v@) == self.table()[prefix@]
                &&& v@.len() > 0
                &&& forall|j: int| 0 <= j < v@.len() ==> (#[trigger] v@[j])@.len() == self.after()
            },
    {
        let key = String::from_str(prefix);
        self.hash_map.get(&key, Ghost(self.n_before as nat), Ghost(self.n_after as nat))
    }

    /// The starting-prefix pool: the first `n_before` characters of each
    /// trained word, in training order.
    pub fn starting_prefixes(&self) -> (r: &Vec<String>)
        ensures
            views(r@) == self.starts(),
    {
        &self.starting_ngrams
    }

    /// Samples a new word.
    ///
    /// A target length `L` is drawn from `get_min_len()..=get_max_len()` and a
    /// start from the starting-prefix pool. The word is then extended by one
    /// recorded suffix of its last `n_before` characters at a time, for at most
    /// `L / n_after - n_before + 1` steps, and returned early when its last
    /// `n_before` characters were never seen as a prefix. An untrained model
    /// yields `ChainError::Empty`.
    pub fn generate_random_word(&self) -> (r: Result<String, ChainError>)
        requires
            self.wf(),
        ensures
            r is Err <==> self.starts().len() == 0,
            r matches Ok(w) ==> self.is_sample(w@),
    {
        if self.starting_ngrams.len() == 0 {
            return Err(ChainError::Empty(String::from_str("Markov has no states provided")));
        }
        let len = random_in_range(self.min_len, self.max_len);
        let mut word = match choose_one(&self.starting_ngrams) {
            Some(s) => s.clone(),
            None => {
                return Err(ChainError::Empty(String::from_str("Markov has no states provided")));
            },
        };
        let n_before = self.n_before;
        let n_after = self.n_after;
        let size = len / n_after;
        let steps: usize = if size >= n_before {
            size - n_before + 1
        } else {
            0
        };
        proof {
            let i = choose|i: int|
                0 <= i < self.starting_ngrams@.len() && self.starting_ngrams@[i] == word;
            assert(self.starts()[i] == word@);
            assert(word@.len() == n_before + 0 * n_after);
        }
        let mut step: usize = 0;
        let mut stopped = false;
        while step < steps && !stopped
            invariant
                self.wf(),
                n_before == self.n_before,
                n_after == self.n_after,
                step <= steps,
                is_walk(self.table(), self.starts(), n_before as nat, n_after as nat, word@, step as nat),
                word@.len() == n_before + step * n_after,
                stopped ==> !self.table().contains_key(last_window(word@, n_before as nat)),
            decreases steps - step, if stopped { 0int } else { 1int },
        {
            let n = word.as_str().unicode_len();
            let key = word.as_str().substring_char(n - n_before, n);
            match self.transitions(key) {
                None => {
                    stopped = true;
                },
                Some(v) => {
                    match choose_one(v) {
                        Some(s) => {
                            let ghost w0 = word@;
                            let ghost i = choose|i: int| 0 <= i < v@.len() && v@[i] == *s;
                            word.append(s.as_str());
                            proof {
                                assert(views(v@)[i] == s@);
                                assert(word@.subrange(0, word@.len() - n_after) =~= w0);
                                assert(word@.subrange(word@.len() - n_after, word@.len() as int)
                                    =~= s@);
                                lemma_mul_is_distributive_add_other_way(n_after as int, step as int, 1);
                            }
                            step = step + 1;
                        },
                        None => {
                            stopped = true;
                        },
                    }
                },
            }
        }
        proof {
            let target = len as nat;
            let k = step as nat;
            assert(step_budget(target, self.before(), self.after()) == steps);
            assert(is_walk(self.table(), self.starts(), self.before(), self.after(), word@, k));
            assert(k < steps ==> !self.table().contains_key(last_window(word@, self.before())));
            assert(self.shortest() <= target <= self.longest());
            assert(word@.len() == self.before() + k * self.after());
            assert(k <= step_budget(target, self.before(), self.after()));
            assert(self.is_sample(word@));
        }
        Ok(word)
    }

    /// Samples a word from given draws instead of a random source: `start`
    /// picks the starting prefix (modulo the pool's size), `target_len` is the
    /// target length and `picks[j]` picks the suffix of the `j`-th extension
    /// (modulo the number of candidates). Extension stops as in
    /// `generate_random_word`, or when the picks run out. An untrained model
    /// yields `ChainError::Empty`.
    pub fn generate_word_with(&self, target_len: usize, start: usize, picks: &Vec<usize>) -> (r:
        Result<String, ChainError>)
        requires
            self.wf(),
        ensures
            r is Err <==> self.starts().len() == 0,
            r matches Ok(w) ==> w@ == walk(
                self.table(),
                self.before(),
                self.starts()[start as int % self.starts().len() as int],
                step_budget(target_len as nat, self.before(), self.after()),
                picks@,
                0,
            ),
            r matches Ok(w) ==> self.is_chain(w@),
    {
        if self.starting_ngrams.len() == 0 {
            return Err(ChainError::Empty(String::from_str("Markov has no states provided")));
        }
        let mut word = self.starting_ngrams[start % self.starting_ngrams.len()].clone();
        let n_before = self.n_before;
        let size = target_len / self.n_after;
        let steps: usize = if size >= n_before {
            size - n_before + 1
        } else {
            0
        };
        let ghost result = walk(self.table(), n_before as nat, word@, steps as nat, picks@, 0);
        proof {
            assert(word@ == self.starts()[start as int % self.starts().len() as int]);
            assert(is_walk(self.table(), self.starts(), self.before(), self.after(), word@, 0));
        }
        let mut j: usize = 0;
        let mut done = false;
        while j < steps && j < picks.len() && !done
            invariant
                self.wf(),
                n_before == self.n_before,
                j <= steps,
                word@.len() >= n_before,
                is_walk(self.table(), self.starts(), self.before(), self.after(), word@, j as nat),
                walk(self.table(), n_before as nat, word@, (steps - j) as nat, picks@, j as nat) == result,
                done ==> !self.table().contains_key(last_window(word@, n_before as nat)),
            decreases steps - j, if done { 0int } else { 1int },
        {
            let n = word.as_str().unicode_len();
            let key = word.as_str().substring_char(n - n_before, n);
            match self.transitions(key) {
                None => {
                    done = true;
                },
                Some(v) => {
                    let s = &v[picks[j] % v.len()];
                    let ghost w0 = word@;
                    word.append(s.as_str());
                    proof {
                        let i = picks@[j as int] as int % v@.len() as int;
                        assert(views(v@)[i] == s@);
                        assert(s@.len() == self.after());
                        assert(word@.subrange(0, word@.len() - self.after()) =~= w0);
                        assert(word@.subrange(word@.len() - self.after(), word@.len() as int) =~= s@);
                        assert(self.table()[key@].contains(s@));
                    }
                    j = j + 1;
                },
            }
        }
        assert(is_walk(self.table(), self.starts(), self.before(), self.after(), word@, j as nat));
        assert(self.is_chain(word@));
        Ok(word)
    }

    /// The least length among the trained words (`usize::MAX` before any).
    pub fn get_min_len(&self) -> (r: usize)
        ensures
            r == self.shortest(),
    {
        self.min_len
    }

    /// The greatest length among the trained words (0 before any).
    pub fn get_max_len(&self) -> (r: usize)
        ensures
            r == self.longest(),
    {
        self.max_len
    }
}

} // verus!
