//! Patterns: predicates over the kind of an element and, where asked for,
//! over the kinds of the nodes around it.

use vstd::prelude::*;

verus! {

/// Every kind of `kinds` is one of the grammar's `kind_count` kinds.
pub open spec fn kinds_known(kinds: Seq<u16>, kind_count: u16) -> bool {
    forall|i: int| 0 <= i < kinds.len() ==> #[trigger] kinds[i] < kind_count
}

/// Whether every kind of `kinds` is one of the grammar's `kind_count` kinds.
pub fn all_known(kinds: &Vec<u16>, kind_count: u16) -> (res: bool)
    ensures
        res == kinds_known(kinds@, kind_count),
{
    let mut i: usize = 0;
    while i < kinds.len()
        invariant
            0 <= i <= kinds.len(),
            forall|k: int| 0 <= k < i ==> #[trigger] kinds[k] < kind_count,
        decreases kinds.len() - i,
    {
        if kinds[i] >= kind_count {
            return false;
        }
        i += 1;
    }
    true
}

/// Whether `kind` is one of `kinds`.
pub fn has_kind(kinds: &Vec<u16>, kind: u16) -> (res: bool)
    ensures
        res == kinds@.contains(kind),
{
    let mut i: usize = 0;
    while i < kinds.len()
        invariant
            0 <= i <= kinds.len(),
            forall|k: int| 0 <= k < i ==> #[trigger] kinds[k] != kind,
        decreases kinds.len() - i,
    {
        if kinds[i] == kind {
            return true;
        }
        i += 1;
    }
    false
}

/// A predicate over elements. It looks at kinds only, never at a position
/// or at text.
#[derive(Clone, Debug)]
pub struct Pattern {
    /// The kinds that the element itself may have.
    pub kinds: Vec<u16>,
    /// Where not empty: one of the nodes above the element must have one of
    /// these kinds.
    pub within: Vec<u16>,
}

impl Pattern {
    /// The pattern names known kinds only.
    pub open spec fn known(&self, kind_count: u16) -> bool {
        kinds_known(self.kinds@, kind_count) && kinds_known(self.within@, kind_count)
    }

    /// What the pattern says of an element of kind `kind` whose ancestors,
    /// the nearest first, have the kinds `above`.
    pub open spec fn accepts(&self, kind: u16, above: Seq<u16>) -> bool {
        &&& self.kinds@.contains(kind)
        &&& self.within.len() > 0 ==> exists|j: int|
            0 <= j < above.len() && self.within@.contains(#[trigger] above[j])
    }

    /// A pattern for elements of one of `kinds`, wherever they stand.
    pub fn new(kinds: Vec<u16>) -> (res: Self)
        ensures
            res.kinds == kinds,
            res.within.len() == 0,
    {
        Pattern { kinds, within: Vec::new() }
    }

    /// A pattern for elements of one of `kinds` that stand somewhere below a
    /// node of one of `within`.
    pub fn inside(kinds: Vec<u16>, within: Vec<u16>) -> (res: Self)
        ensures
            res.kinds == kinds,
            res.within == within,
    {
        Pattern { kinds, within }
    }

    /// Whether the pattern names known kinds only.
    pub fn is_known(&self, kind_count: u16) -> (res: bool)
        ensures
            res == self.known(kind_count),
    {
        all_known(&self.kinds, kind_count) && all_known(&self.within, kind_count)
    }

    /// Whether the pattern accepts an element of kind `kind` whose
    /// ancestors, the nearest first, have the kinds `above`.
    pub fn matches_kinds(&self, kind: u16, above: &Vec<u16>) -> (res: bool)
        ensures
            res == self.accepts(kind, above@),
    {
        if !has_kind(&self.kinds, kind) {
            return false;
        }
        if self.within.len() == 0 {
            return true;
        }
        let mut j: usize = 0;
        while j < above.len()
            invariant
                0 <= j <= above.len(),
                self.kinds@.contains(kind),
                self.within.len() > 0,
                forall|k: int| 0 <= k < j ==> !self.within@.contains(#[trigger] above[k]),
            decreases above.len() - j,
        {
            if has_kind(&self.within, above[j]) {
                assert(self.within@.contains(above@[j as int]));
                return true;
            }
            j += 1;
        }
        false
    }
}

/// The numbers of the lists among the first `n` that hold `kind`, in
/// ascending order.
pub open spec fn naming(lists: Seq<Seq<u16>>, kind: u16, n: int) -> Seq<usize>
    decreases n,
{
    if n <= 0 {
        Seq::empty()
    } else if lists[n - 1].contains(kind) {
        naming(lists, kind, n - 1).push((n - 1) as usize)
    } else {
        naming(lists, kind, n - 1)
    }
}

/// The numbers that `naming` gives ascend, each is the number of a list
/// that holds the kind, and no such list is left out.
pub proof fn lemma_naming(lists: Seq<Seq<u16>>, kind: u16, n: int)
    requires
        0 <= n <= lists.len(),
        n <= usize::MAX,
    ensures
        forall|p: int|
            0 <= p < naming(lists, kind, n).len() ==> (#[trigger] naming(lists, kind, n)[p]) < n
                && lists[naming(lists, kind, n)[p] as int].contains(kind),
        forall|a: int, b: int|
            0 <= a < b < naming(lists, kind, n).len() ==> naming(lists, kind, n)[a] < naming(
                lists,
                kind,
                n,
            )[b],
        forall|j: int|
            0 <= j < n && lists[j].contains(kind) ==> naming(lists, kind, n).contains(j as usize),
    decreases n,
{
    if n > 0 {
        lemma_naming(lists, kind, n - 1);
        let before = naming(lists, kind, n - 1);
        let after = naming(lists, kind, n);
        assert forall|a: int, b: int| 0 <= a < b < after.len() implies after[a] < after[b] by {
            if b < before.len() {
                assert(before[a] < before[b]);
            } else {
                assert(before[a] < n - 1);
            }
        }
        assert forall|p: int| 0 <= p < after.len() implies (#[trigger] after[p]) < n
            && lists[after[p] as int].contains(kind) by {
            if p < before.len() {
                assert(before[p] < n - 1);
            }
        }
        assert forall|j: int| 0 <= j < n && lists[j].contains(kind) implies after.contains(
            j as usize,
        ) by {
            if j < n - 1 {
                let w = choose|w: int| 0 <= w < before.len() && before[w] == j as usize;
                assert(after[w] == j as usize);
            } else {
                assert(after[after.len() - 1] == j as usize);
            }
        }
    }
}

/// What stands behind the first `n` lists does not count for `naming`.
pub proof fn lemma_naming_prefix(lists: Seq<Seq<u16>>, more: Seq<Seq<u16>>, kind: u16, n: int)
    requires
        0 <= n <= lists.len(),
    ensures
        naming(lists + more, kind, n) == naming(lists, kind, n),
    decreases n,
{
    if n > 0 {
        lemma_naming_prefix(lists, more, kind, n - 1);
    }
}

/// An index of kind lists by the kinds that they hold: for every kind of
/// the grammar, the numbers of the lists that hold it, in the order in which
/// the lists were put in. Looking a kind up costs no walk over all lists.
pub struct PatternSet {
    /// For each kind, the numbers of the lists that hold it.
    pub by_kind: Vec<Vec<usize>>,
    /// What is found for a kind that the grammar does not have: nothing.
    pub none: Vec<usize>,
    /// The number of lists put in so far.
    pub count: usize,
    /// The lists put in so far.
    pub lists: Ghost<Seq<Seq<u16>>>,
}

impl PatternSet {
    /// Row `k` of the index holds the numbers of the lists that hold kind
    /// `k`.
    pub open spec fn row_ok(&self, k: int) -> bool {
        self.by_kind[k]@ == naming(self.lists@, k as u16, self.count as int)
    }

    /// The index is well formed.
    pub open spec fn wf(&self) -> bool {
        &&& self.lists@.len() == self.count
        &&& self.by_kind.len() <= u16::MAX
        &&& self.none.len() == 0
        &&& forall|k: int| 0 <= k < self.by_kind.len() ==> #[trigger] self.row_ok(k)
        &&& forall|j: int|
            0 <= j < self.lists@.len() ==> kinds_known(
                #[trigger] self.lists@[j],
                self.by_kind.len() as u16,
            )
    }

    /// What the index holds for a kind.
    pub open spec fn found(&self, kind: u16) -> Seq<usize> {
        if kind < self.by_kind.len() {
            naming(self.lists@, kind, self.count as int)
        } else {
            Seq::empty()
        }
    }

    /// An empty index for a grammar with `kind_count` kinds.
    pub fn new(kind_count: u16) -> (res: Self)
        ensures
            res.wf(),
            res.by_kind.len() == kind_count,
            res.lists@.len() == 0,
    {
        let mut by_kind: Vec<Vec<usize>> = Vec::new();
        let mut k: u16 = 0;
        while k < kind_count
            invariant
                0 <= k <= kind_count,
                by_kind.len() == k,
                forall|j: int| 0 <= j < k ==> (#[trigger] by_kind[j]).len() == 0,
            decreases kind_count - k,
        {
            by_kind.push(Vec::new());
            k += 1;
        }
        let res = PatternSet { by_kind, none: Vec::new(), count: 0, lists: Ghost(Seq::empty()) };
        proof {
            assert forall|j: int| 0 <= j < res.by_kind.len() implies #[trigger] res.row_ok(j) by {
                assert(res.by_kind[j]@ =~= Seq::<usize>::empty());
            }
        }
        res
    }

    /// Puts one more list in. Its number is the count of the lists before
    /// it.
    pub fn insert(&mut self, kinds: &Vec<u16>)
        requires
            old(self).wf(),
            old(self).count < usize::MAX,
            forall|j: int| 0 <= j < kinds.len() ==> #[trigger] kinds[j] < old(self).by_kind.len(),
        ensures
            final(self).wf(),
            final(self).by_kind.len() == old(self).by_kind.len(),
            final(self).count == old(self).count + 1,
            final(self).lists@ == old(self).lists@.push(kinds@),
    {
        let id = self.count;
        let ghost lists = self.lists@;
        let ghost width = self.by_kind.len();
        let mut j: usize = 0;
        proof {
            assert forall|k: int| 0 <= k < width implies #[trigger] self.by_kind[k]@ == naming(
                lists,
                k as u16,
                id as int,
            ) by {
                assert(self.row_ok(k));
            }
        }
        while j < kinds.len()
            invariant
                0 <= j <= kinds.len(),
                self.by_kind.len() == width,
                width <= u16::MAX,
                self.count == id,
                self.lists@ == lists,
                lists.len() == id,
                forall|c: int| 0 <= c < lists.len() ==> kinds_known(#[trigger] lists[c], width as u16),
                self.none.len() == 0,
                forall|c: int| 0 <= c < kinds.len() ==> #[trigger] kinds[c] < width,
                forall|k: int|
                    0 <= k < width ==> #[trigger] self.by_kind[k]@ == (if kinds@.take(
                        j as int,
                    ).contains(k as u16) {
                        naming(lists, k as u16, id as int).push(id)
                    } else {
                        naming(lists, k as u16, id as int)
                    }),
            decreases kinds.len() - j,
        {
            let k = kinds[j] as usize;
            let ghost table = self.by_kind@;
            let ghost seen = kinds@.take(j as int);
            proof {
                lemma_naming(lists, k as u16, id as int);
                assert(kinds@.take(j + 1) =~= seen.push(kinds@[j as int]));
            }
            let row_len = self.by_kind[k].len();
            let listed = row_len > 0 && self.by_kind[k][row_len - 1] == id;
            if !listed {
                self.by_kind[k].push(id);
            }
            proof {
                let next = kinds@.take(j + 1);
                assert forall|c: int| 0 <= c < width implies #[trigger] self.by_kind[c]@ == (
                if next.contains(c as u16) {
                    naming(lists, c as u16, id as int).push(id)
                } else {
                    naming(lists, c as u16, id as int)
                }) by {
                    if c == k {
                        assert(next[j as int] == k as u16);
                    } else {
                        assert(self.by_kind[c] == table[c]);
                        if seen.contains(c as u16) {
                            let w = choose|w: int| 0 <= w < seen.len() && seen[w] == c as u16;
                            assert(next[w] == c as u16);
                        } else if next.contains(c as u16) {
                            let w = choose|w: int| 0 <= w < next.len() && next[w] == c as u16;
                            assert(seen[w] == c as u16);
                        }
                    }
                }
            }
            j += 1;
        }
        self.count = id + 1;
        self.lists = Ghost(lists.push(kinds@));
        proof {
            assert(kinds@.take(kinds.len() as int) =~= kinds@);
            assert forall|c: int| 0 <= c < width implies #[trigger] self.row_ok(c) by {
                lemma_naming_prefix(lists, seq![kinds@], c as u16, id as int);
                assert(lists + seq![kinds@] =~= lists.push(kinds@));
            }
        }
    }

    /// The numbers of the lists that hold `kind`, in the order in which the
    /// lists were put in.
    pub fn matching(&self, kind: u16) -> (res: &Vec<usize>)
        requires
            self.wf(),
        ensures
            res@ == self.found(kind),
    {
        if (kind as usize) < self.by_kind.len() {
            proof {
                assert(self.row_ok(kind as int));
            }
            &self.by_kind[kind as usize]
        } else {
            assert(self.none@ =~= Seq::<usize>::empty());
            &self.none
        }
    }
}

} // verus!
