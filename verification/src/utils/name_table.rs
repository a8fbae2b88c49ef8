//! A table of names that finds a name fast.
use crate::utils::text;
use vstd::prelude::*;

verus! {

/// Whether a name comes before another one in the order of their bytes.
pub open spec fn precedes(a: Seq<u8>, b: Seq<u8>) -> bool
    decreases a.len(),
{
    if b.len() == 0 {
        false
    } else if a.len() == 0 {
        true
    } else if a[0] != b[0] {
        a[0] < b[0]
    } else {
        precedes(a.drop_first(), b.drop_first())
    }
}

/// Of two different names one comes before the other, and no name comes before itself.
proof fn lemma_total(a: Seq<u8>, b: Seq<u8>)
    ensures
        a != b ==> precedes(a, b) || precedes(b, a),
        !precedes(a, a),
    decreases a.len(),
{
    if a.len() > 0 {
        lemma_total(a.drop_first(), b.drop_first());
        if b.len() > 0 && a[0] == b[0] && a.drop_first() == b.drop_first() {
            assert(a =~= seq![a[0]] + a.drop_first());
            assert(b =~= seq![b[0]] + b.drop_first());
        }
    } else if b.len() == 0 {
        assert(a =~= b);
    }
}

/// A name that comes before another one comes before all that follow.
proof fn lemma_transitive(a: Seq<u8>, b: Seq<u8>, c: Seq<u8>)
    requires
        precedes(a, b),
        precedes(b, c),
    ensures
        precedes(a, c),
    decreases a.len(),
{
    if a.len() > 0 && a[0] == b[0] && b[0] == c[0] {
        lemma_transitive(a.drop_first(), b.drop_first(), c.drop_first());
    }
}

/// No two names come each before the other.
proof fn lemma_asymmetric(a: Seq<u8>, b: Seq<u8>)
    requires
        precedes(a, b),
    ensures
        !precedes(b, a),
{
    if precedes(b, a) {
        lemma_transitive(a, b, a);
        lemma_total(a, a);
    }
}

/// Names that are in order, possibly equal, come before a third one if the second does, and after a
/// third one if the first does.
proof fn lemma_in_order(a: Seq<u8>, b: Seq<u8>, c: Seq<u8>)
    requires
        !precedes(b, a),
    ensures
        precedes(b, c) ==> precedes(a, c),
        precedes(c, a) ==> precedes(c, b),
{
    lemma_total(a, b);
    if a != b {
        if precedes(b, c) {
            lemma_transitive(a, b, c);
        }
        if precedes(c, a) {
            lemma_transitive(c, a, b);
        }
    }
}

/// Returns whether a name comes before another one.
fn is_before(a: &[u8], b: &[u8]) -> (r: bool)
    ensures
        r == precedes(a@, b@),
{
    let mut i: usize = 0;
    assert(a@.skip(0) =~= a@);
    assert(b@.skip(0) =~= b@);
    while i < a.len() && i < b.len()
        invariant
            i <= a@.len(),
            i <= b@.len(),
            precedes(a@, b@) == precedes(a@.skip(i as int), b@.skip(i as int)),
        decreases a@.len() - i,
    {
        if a[i] != b[i] {
            return a[i] < b[i];
        }
        assert(a@.skip(i as int).drop_first() =~= a@.skip(i + 1));
        assert(b@.skip(i as int).drop_first() =~= b@.skip(i + 1));
        i += 1;
    }
    i < b.len()
}

/// Names in the order in which they came, none of them twice.
#[derive(Debug)]
pub struct NameTable {
    names: Vec<Vec<u8>>,
    /// Where the names are, in runs that are sorted by name. Runs of the same length are merged, so
    /// that there are never many of them.
    runs: Vec<Vec<usize>>,
}

/// The names themselves.
spec fn views(names: Seq<Vec<u8>>) -> Seq<Seq<u8>> {
    names.map_values(|v: Vec<u8>| v@)
}

/// The name at a position of a run.
spec fn name_at(names: Seq<Seq<u8>>, run: Seq<usize>, k: int) -> Seq<u8> {
    names[run[k] as int]
}

/// Whether a run holds indices of names and is sorted by them.
spec fn is_run(names: Seq<Seq<u8>>, run: Seq<usize>) -> bool {
    &&& forall|k: int| 0 <= k < run.len() ==> (#[trigger] run[k]) < names.len()
    &&& forall|i: int, j: int|
        0 <= i <= j < run.len() ==> !precedes(
            #[trigger] name_at(names, run, j),
            #[trigger] name_at(names, run, i),
        )
}

/// Whether one of the runs holds the index.
spec fn is_in(runs: Seq<Vec<usize>>, i: usize) -> bool {
    exists|r: int| 0 <= r < runs.len() && #[trigger] runs[r]@.contains(i)
}

/// Searches a run for a name.
fn search(names: &Vec<Vec<u8>>, run: &Vec<usize>, name: &[u8]) -> (r: Option<usize>)
    requires
        is_run(views(names@), run@),
    ensures
        match r {
            Some(i) => i < names@.len() && names@[i as int]@ == name@,
            None => forall|k: int|
                0 <= k < run@.len() ==> name_at(views(names@), run@, k) != name@,
        },
{
    let ghost ns = views(names@);
    let mut low: usize = 0;
    let mut high: usize = run.len();
    while low < high
        invariant
            ns == views(names@),
            is_run(ns, run@),
            low <= high <= run@.len(),
            forall|k: int| 0 <= k < low ==> precedes(#[trigger] name_at(ns, run@, k), name@),
            forall|k: int|
                high <= k < run@.len() ==> !precedes(#[trigger] name_at(ns, run@, k), name@),
        decreases high - low,
    {
        let middle: usize = low + (high - low) / 2;
        let ghost at = name_at(ns, run@, middle as int);
        assert(run@[middle as int] < ns.len());
        if is_before(names[run[middle]].as_slice(), name) {
            assert forall|k: int| 0 <= k < middle + 1 implies precedes(
                #[trigger] name_at(ns, run@, k),
                name@,
            ) by {
                lemma_in_order(name_at(ns, run@, k), at, name@);
            }
            low = middle + 1;
        } else {
            assert forall|k: int| middle <= k < run@.len() implies !precedes(
                #[trigger] name_at(ns, run@, k),
                name@,
            ) by {
                lemma_in_order(at, name_at(ns, run@, k), name@);
            }
            high = middle;
        }
    }
    let ghost at = name_at(ns, run@, low as int);
    if low < run.len() {
        let i: usize = run[low];
        assert(run@[low as int] < ns.len());
        if text::same_bytes(names[i].as_slice(), name) {
            return Some(i);
        }
        proof {
            lemma_total(at, name@);
        }
    }
    assert forall|k: int| 0 <= k < run@.len() implies name_at(ns, run@, k) != name@ by {
        if k < low {
            lemma_total(name_at(ns, run@, k), name@);
        } else if name_at(ns, run@, k) == name@ {
            assert(!precedes(name_at(ns, run@, k), at));
        }
    }
    None
}

/// Merges two runs.
fn merge(names: &Vec<Vec<u8>>, a: &Vec<usize>, b: &Vec<usize>) -> (r: Vec<usize>)
    requires
        is_run(views(names@), a@),
        is_run(views(names@), b@),
    ensures
        is_run(views(names@), r@),
        forall|i: usize| a@.contains(i) || b@.contains(i) ==> #[trigger] r@.contains(i),
{
    let ghost ns = views(names@);
    let mut r: Vec<usize> = Vec::new();
    let mut i: usize = 0;
    let mut j: usize = 0;
    while i < a.len() || j < b.len()
        invariant
            ns == views(names@),
            is_run(ns, a@),
            is_run(ns, b@),
            is_run(ns, r@),
            i <= a@.len(),
            j <= b@.len(),
            forall|k: int| 0 <= k < i ==> r@.contains(#[trigger] a@[k]),
            forall|k: int| 0 <= k < j ==> r@.contains(#[trigger] b@[k]),
            forall|p: int, k: int|
                0 <= p < r@.len() && i <= k < a@.len() ==> !precedes(
                    #[trigger] name_at(ns, a@, k),
                    #[trigger] name_at(ns, r@, p),
                ),
            forall|p: int, k: int|
                0 <= p < r@.len() && j <= k < b@.len() ==> !precedes(
                    #[trigger] name_at(ns, b@, k),
                    #[trigger] name_at(ns, r@, p),
                ),
        decreases a@.len() - i + b@.len() - j,
    {
        let from_a: bool = if i == a.len() {
            false
        } else if j == b.len() {
            true
        } else {
            assert(a@[i as int] < ns.len());
            assert(b@[j as int] < ns.len());
            !is_before(names[b[j]].as_slice(), names[a[i]].as_slice())
        };
        let ghost was = r@;
        let next: usize = if from_a {
            a[i]
        } else {
            b[j]
        };
        let ghost name = ns[next as int];
        proof {
            if from_a {
                assert(name_at(ns, a@, i as int) == name);
            } else {
                assert(name_at(ns, b@, j as int) == name);
                if i < a@.len() {
                    lemma_asymmetric(name, name_at(ns, a@, i as int));
                }
            }
            assert forall|k: int| i <= k < a@.len() implies !precedes(
                #[trigger] name_at(ns, a@, k),
                name,
            ) by {
                if !from_a {
                    lemma_in_order(name_at(ns, a@, i as int), name_at(ns, a@, k), name);
                }
            }
            assert forall|k: int| j <= k < b@.len() implies !precedes(
                #[trigger] name_at(ns, b@, k),
                name,
            ) by {
                if from_a {
                    lemma_in_order(name_at(ns, b@, j as int), name_at(ns, b@, k), name);
                }
            }
        }
        r.push(next);
        if from_a {
            i += 1;
        } else {
            j += 1;
        }
        proof {
            assert(r@[was.len() as int] == next);
            assert(name_at(ns, r@, was.len() as int) == name);
            assert forall|p: int| 0 <= p < was.len() implies #[trigger] name_at(ns, r@, p)
                == name_at(ns, was, p) && r@[p] == was[p] by {}
            assert forall|x: usize| was.contains(x) implies #[trigger] r@.contains(x) by {
                let p = choose|p: int| 0 <= p < was.len() && was[p] == x;
                assert(r@[p] == x);
            }
            lemma_total(name, name);
        }
    }
    assert forall|x: usize| a@.contains(x) || b@.contains(x) implies #[trigger] r@.contains(x) by {
        if a@.contains(x) {
            let k = choose|k: int| 0 <= k < a@.len() && a@[k] == x;
            assert(r@.contains(a@[k]));
        } else {
            let k = choose|k: int| 0 <= k < b@.len() && b@[k] == x;
            assert(r@.contains(b@[k]));
        }
    }
    r
}

impl View for NameTable {
    type V = Seq<Seq<u8>>;

    closed spec fn view(&self) -> Seq<Seq<u8>> {
        views(self.names@)
    }
}

impl NameTable {
    /// No name is there twice, the runs are sorted, and each name is in one of them.
    pub closed spec fn wf(self) -> bool {
        &&& self@.no_duplicates()
        &&& forall|r: int| 0 <= r < self.runs@.len() ==> is_run(self@, (#[trigger] self.runs@[r])@)
        &&& forall|i: usize| i < self@.len() ==> #[trigger] is_in(self.runs@, i)
    }

    /// The names of a table are all different.
    pub proof fn lemma_distinct(self)
        requires
            self.wf(),
        ensures
            self@.no_duplicates(),
    {
    }

    /// Makes a table without names.
    pub fn new() -> (r: NameTable)
        ensures
            r.wf(),
            r@ == Seq::<Seq<u8>>::empty(),
    {
        let r = NameTable { names: Vec::new(), runs: Vec::new() };
        assert(r@ =~= Seq::<Seq<u8>>::empty());
        r
    }

    /// Returns the number of names.
    pub fn len(&self) -> (r: usize)
        ensures
            r == self@.len(),
    {
        self.names.len()
    }

    /// Returns where the name is.
    pub fn index_of(&self, name: &[u8]) -> (r: Option<usize>)
        requires
            self.wf(),
        ensures
            match r {
                Some(i) => i < self@.len() && self@[i as int] == name@,
                None => !self@.contains(name@),
            },
    {
        let count: usize = self.names.len();
        let mut r: usize = 0;
        while r < self.runs.len()
            invariant
                self.wf(),
                count == self@.len(),
                r <= self.runs@.len(),
                forall|q: int, k: int|
                    0 <= q < r && 0 <= k < self.runs@[q]@.len() ==> #[trigger] name_at(
                        self@,
                        self.runs@[q]@,
                        k,
                    ) != name@,
            decreases self.runs@.len() - r,
        {
            assert(is_run(self@, self.runs@[r as int]@));
            match search(&self.names, &self.runs[r], name) {
                Some(i) => {
                    assert(self@[i as int] == name@);
                    return Some(i);
                },
                None => {},
            }
            r += 1;
        }
        assert forall|i: int| 0 <= i < count implies self@[i] != name@ by {
            assert(is_in(self.runs@, i as usize));
            let q = choose|q: int|
                0 <= q < self.runs@.len() && #[trigger] self.runs@[q]@.contains(i as usize);
            let run = self.runs@[q]@;
            let k = choose|k: int| 0 <= k < run.len() && run[k] == i as usize;
            assert(name_at(self@, run, k) == self@[i]);
        }
        None
    }

    /// Adds a name, unless it is there already. Returns whether it was added.
    pub fn insert(&mut self, name: Vec<u8>) -> (r: bool)
        requires
            old(self).wf(),
        ensures
            final(self).wf(),
            r == !old(self)@.contains(name@),
            final(self)@ == (if r {
                old(self)@.push(name@)
            } else {
                old(self)@
            }),
    {
        if self.index_of(name.as_slice()).is_some() {
            return false;
        }
        let ghost before = *self;
        let i: usize = self.names.len();
        let mut run: Vec<usize> = Vec::new();
        run.push(i);
        self.names.push(name);
        proof {
            assert(self@ =~= before@.push(name@));
            assert(run@[0] == i);
            lemma_total(name@, name@);
            assert forall|r: int| 0 <= r < self.runs@.len() implies is_run(
                self@,
                (#[trigger] self.runs@[r])@,
            ) by {
                let old_run = before.runs@[r]@;
                assert(is_run(before@, old_run));
                assert forall|p: int, q: int| 0 <= p <= q < old_run.len() implies !precedes(
                    #[trigger] name_at(self@, old_run, q),
                    #[trigger] name_at(self@, old_run, p),
                ) by {
                    assert(old_run[p] < before@.len() && old_run[q] < before@.len());
                    assert(name_at(self@, old_run, p) == name_at(before@, old_run, p));
                    assert(name_at(self@, old_run, q) == name_at(before@, old_run, q));
                }
            }
        }
        loop
            invariant
                is_run(self@, run@),
                self@ == before@.push(name@),
                self@.no_duplicates(),
                forall|r: int|
                    0 <= r < self.runs@.len() ==> is_run(self@, (#[trigger] self.runs@[r])@),
                forall|x: usize|
                    x < self@.len() ==> run@.contains(x) || #[trigger] is_in(self.runs@, x),
            ensures
                self@ == before@.push(name@),
                self.wf(),
            decreases self.runs@.len(),
        {
            let n: usize = self.runs.len();
            let ghost runs = self.runs@;
            if n == 0 || self.runs[n - 1].len() > run.len() {
                self.runs.push(run);
                proof {
                    assert forall|x: usize| x < self@.len() implies #[trigger] is_in(
                        self.runs@,
                        x,
                    ) by {
                        if run@.contains(x) {
                            assert(self.runs@[n as int]@.contains(x));
                        } else {
                            assert(is_in(runs, x));
                            let r = choose|r: int|
                                0 <= r < runs.len() && #[trigger] runs[r]@.contains(x);
                            assert(self.runs@[r]@.contains(x));
                        }
                    }
                }
                break;
            }
            match self.runs.pop() {
                Some(last) => {
                    assert(is_run(self@, last@));
                    let merged = merge(&self.names, &last, &run);
                    proof {
                        assert forall|x: usize| x < self@.len() implies merged@.contains(x)
                            || #[trigger] is_in(self.runs@, x) by {
                            if run@.contains(x) {
                                assert(merged@.contains(x));
                            } else {
                                assert(is_in(runs, x));
                                let r = choose|r: int|
                                    0 <= r < runs.len() && #[trigger] runs[r]@.contains(x);
                                if r == n - 1 {
                                    assert(merged@.contains(x));
                                } else {
                                    assert(self.runs@[r]@.contains(x));
                                }
                            }
                        }
                    }
                    run = merged;
                },
                None => {},
            }
        }
        true
    }
}

} // verus!
