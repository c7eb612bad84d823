//! The executable path-component trie.
//!
//! Each node owns its children as a vector of `(component, subtree)` pairs
//! with pairwise-distinct components; a well-formedness invariant ties the
//! vector to the order-free map model in [`crate::model`].  Components are
//! owned strings, so the trie does not borrow from the paths it indexes.

use vstd::prelude::*;

use crate::model::TrieModel;

verus! {

/// A trie node.  `children` maps a single path component to the child node
/// reached through it; `count` records how many inserted paths end exactly
/// here.
#[derive(Debug)]
pub struct Trie {
    pub children: Vec<(String, Trie)>,
    pub count: usize,
}

/// The map model of a sequence of `(component, subtree)` entries: each entry
/// contributes one edge.  Later entries win, but under well-formedness the
/// components are distinct, so every entry is visible.
pub open spec fn entries_model(s: Seq<(String, Trie)>) -> Map<Seq<char>, TrieModel>
    decreases s,
{
    if s.len() == 0 {
        Map::empty()
    } else {
        entries_model(s.drop_last()).insert(s.last().0@, s.last().1.view())
    }
}

/// The sum of `total_count` over a sequence of entries' subtrees.
pub open spec fn entries_total(s: Seq<(String, Trie)>) -> nat
    decreases s,
{
    if s.len() == 0 {
        0
    } else {
        entries_total(s.drop_last()) + s.last().1.total_count()
    }
}

/// Pairwise-distinct components in a sequence of entries.
pub open spec fn distinct_keys(s: Seq<(String, Trie)>) -> bool {
    forall|i: int, j: int|
        0 <= i < j < s.len() ==> (#[trigger] s[i]).0@ != (#[trigger] s[j]).0@
}

/// A component is a key of the entries' model exactly when some entry
/// carries it.
pub proof fn lemma_entries_model_key(s: Seq<(String, Trie)>, k: Seq<char>)
    ensures
        entries_model(s).contains_key(k) <==> exists|i: int| 0 <= i < s.len() && (#[trigger] s[i]).0@ == k,
    decreases s.len(),
{
    if s.len() > 0 {
        lemma_entries_model_key(s.drop_last(), k);
        if entries_model(s).contains_key(k) {
            if s.last().0@ == k {
                assert(s[s.len() - 1].0@ == k);
            } else {
                let i = choose|i: int| 0 <= i < s.drop_last().len() && (#[trigger] s.drop_last()[i]).0@ == k;
                assert(s[i].0@ == k);
            }
        }
        if exists|i: int| 0 <= i < s.len() && (#[trigger] s[i]).0@ == k {
            let i = choose|i: int| 0 <= i < s.len() && (#[trigger] s[i]).0@ == k;
            if i < s.len() - 1 {
                assert(s.drop_last()[i].0@ == k);
            }
        }
    }
}

/// Under distinct components, the entry at index `i` is what the model maps
/// its component to.
pub proof fn lemma_entries_model_index(s: Seq<(String, Trie)>, i: int)
    requires
        distinct_keys(s),
        0 <= i < s.len(),
    ensures
        entries_model(s).contains_key(s[i].0@),
        entries_model(s)[s[i].0@] == s[i].1@,
    decreases s.len(),
{
    if i == s.len() - 1 {
        assert(entries_model(s) == entries_model(s.drop_last()).insert(s.last().0@, s.last().1@));
    } else {
        assert(distinct_keys(s.drop_last())) by {
            assert(forall|p: int, q: int|
                0 <= p < q < s.drop_last().len() ==> (#[trigger] s.drop_last()[p]).0@ != (
                #[trigger] s.drop_last()[q]).0@);
        }
        assert(s.drop_last()[i] == s[i]);
        lemma_entries_model_index(s.drop_last(), i);
        assert(s[i].0@ != s.last().0@);
    }
}

/// Removing the entry at index `j` removes exactly its component from the
/// model, when components are distinct.
pub proof fn lemma_entries_model_remove(s: Seq<(String, Trie)>, j: int)
    requires
        distinct_keys(s),
        0 <= j < s.len(),
    ensures
        entries_model(s.remove(j)) =~= entries_model(s).remove(s[j].0@),
        distinct_keys(s.remove(j)),
    decreases s.len(),
{
    s.remove_ensures(j);
    assert forall|p: int, q: int| 0 <= p < q < s.remove(j).len() implies (#[trigger] s.remove(
        j)[p]).0@ != (#[trigger] s.remove(j)[q]).0@ by {
        let p0: int = if p < j { p } else { p + 1 };
        let q0: int = if q < j { q } else { q + 1 };
        assert(s.remove(j)[p] == s[p0] && s.remove(j)[q] == s[q0]);
    }
    if j == s.len() - 1 {
        assert(s.remove(j) =~= s.drop_last());
        lemma_entries_model_key(s.drop_last(), s[j].0@);
        assert forall|k: Seq<char>| true implies entries_model(s.drop_last()).contains_key(k)
            == entries_model(s).remove(s[j].0@).contains_key(k) && (entries_model(
            s.drop_last()).contains_key(k) ==> entries_model(s.drop_last())[k] == entries_model(
            s).remove(s[j].0@)[k]) by {
            if k == s[j].0@ {
                assert(!entries_model(s.drop_last()).contains_key(k));
            }
        }
    } else {
        assert(distinct_keys(s.drop_last())) by {
            assert(forall|p: int, q: int|
                0 <= p < q < s.drop_last().len() ==> (#[trigger] s.drop_last()[p]).0@ != (
                #[trigger] s.drop_last()[q]).0@);
        }
        lemma_entries_model_remove(s.drop_last(), j);
        assert(s.remove(j).drop_last() =~= s.drop_last().remove(j)) by {
            s.drop_last().remove_ensures(j);
        }
        assert(s.remove(j).last() == s.last());
        assert(entries_model(s.remove(j)) == entries_model(s.drop_last().remove(j)).insert(
            s.last().0@, s.last().1@));
        assert(s.drop_last()[j] == s[j]);
        assert(s[j].0@ != s.last().0@);
    }
}

/// Each entry's subtree contributes no more than the whole sum.
pub proof fn lemma_entries_total_elem(s: Seq<(String, Trie)>, i: int)
    requires
        0 <= i < s.len(),
    ensures
        s[i].1.total_count() <= entries_total(s),
    decreases s.len(),
{
    if i < s.len() - 1 {
        assert(s.drop_last()[i] == s[i]);
        lemma_entries_total_elem(s.drop_last(), i);
    }
}

/// Removing the entry at index `j` subtracts exactly its subtree's total.
pub proof fn lemma_entries_total_remove(s: Seq<(String, Trie)>, j: int)
    requires
        0 <= j < s.len(),
    ensures
        entries_total(s.remove(j)) + s[j].1.total_count() == entries_total(s),
    decreases s.len(),
{
    s.remove_ensures(j);
    if j == s.len() - 1 {
        assert(s.remove(j) =~= s.drop_last());
    } else {
        lemma_entries_total_remove(s.drop_last(), j);
        assert(s.remove(j).drop_last() =~= s.drop_last().remove(j)) by {
            s.drop_last().remove_ensures(j);
        }
        assert(s.remove(j).last() == s.last());
        assert(entries_total(s.remove(j)) == entries_total(s.drop_last().remove(j))
            + s.last().1.total_count());
        assert(s.drop_last()[j] == s[j]);
    }
}

impl Trie {
    /// The abstraction of this node: its count and the map from component to
    /// child model.  Child order in the vector does not show in the model.
    pub open spec fn view(self) -> TrieModel
        decreases self,
    {
        TrieModel { children: entries_model(self.children@), count: self.count as nat }
    }

    /// The sum of `count` over this node and every node below it; equal to
    /// the number of paths inserted into this subtree.
    pub open spec fn total_count(self) -> nat
        decreases self,
    {
        (self.count + entries_total(self.children@)) as nat
    }

    /// Well-formedness: components are pairwise distinct at every node, and
    /// every child subtree is itself well-formed and holds at least one
    /// ended path (nodes exist only because some insertion created them).
    pub open spec fn wf(self) -> bool
        decreases self,
    {
        &&& distinct_keys(self.children@)
        &&& (forall|i: int|
            0 <= i < self.children@.len() ==> (#[trigger] self.children@[i]).1.wf())
        &&& (forall|i: int|
            0 <= i < self.children@.len() ==> (#[trigger] self.children@[i]).1.total_count()
                >= 1)
    }

    /// True when following the chain of components `cs` from this node leads
    /// to the node `sub`.
    pub open spec fn reaches(self, cs: Seq<Seq<char>>, sub: Trie) -> bool
        decreases cs.len(),
    {
        if cs.len() == 0 {
            sub == self
        } else {
            exists|i: int|
                0 <= i < self.children@.len() && (#[trigger] self.children@[i]).0@ == cs.first()
                    && self.children@[i].1.reaches(cs.drop_first(), sub)
        }
    }

    /// Constructs the empty trie: a root with no children and count zero.
    pub fn new() -> (t: Trie)
        ensures
            t@ == TrieModel::empty(),
            t.wf(),
            t.total_count() == 0,
    {
        let t = Trie { children: Vec::new(), count: 0 };
        proof {
            assert(t@ =~= TrieModel::empty());
        }
        t
    }

    /// True exactly when this node has no children.
    pub fn is_leaf(&self) -> (r: bool)
        ensures
            r == (self@.children == Map::<Seq<char>, TrieModel>::empty()),
    {
        let r = self.children.is_empty();
        proof {
            if r {
                assert(self@.children =~= Map::<Seq<char>, TrieModel>::empty());
            } else {
                lemma_entries_model_nonempty(self.children@);
            }
        }
        r
    }

    /// Inserts one path, given as its ordered sequence of components:
    /// descends from the root along the components, creating empty child
    /// nodes where none exists, and increments the count of the node where
    /// the path ends.  Duplicate insertions accumulate in that count.
    pub fn insert(&mut self, path: &Vec<String>)
        requires
            old(self).wf(),
            old(self).total_count() < usize::MAX,
        ensures
            final(self).wf(),
            final(self)@ == old(self)@.insert_path(path.deep_view()),
            final(self).total_count() == old(self).total_count() + 1,
    {
        proof {
            assert(path.deep_view().skip(0) =~= path.deep_view());
        }
        self.insert_from(path, 0);
    }

    /// The descent of `insert`, starting at component index `from`.
    fn insert_from(&mut self, path: &Vec<String>, from: usize)
        requires
            old(self).wf(),
            old(self).total_count() < usize::MAX,
            from <= path.len(),
        ensures
            final(self).wf(),
            final(self)@ == old(self)@.insert_path(path.deep_view().skip(from as int)),
            final(self).total_count() == old(self).total_count() + 1,
        decreases path.len() - from,
    {
        let ghost cs = path.deep_view().skip(from as int);
        if from == path.len() {
            assert(cs.len() == 0);
            self.count = self.count + 1;
        } else {
            let ghost s = self.children@;
            proof {
                assert(cs.len() == path.len() - from);
                assert(cs.first() == path.deep_view()[from as int]);
                assert(cs.drop_first() =~= path.deep_view().skip(from as int + 1));
                lemma_entries_model_key(s, path@[from as int]@);
            }
            match Self::find_child(&self.children, &path[from]) {
                Some(j) => {
                    proof {
                        lemma_entries_model_index(s, j as int);
                        lemma_entries_total_elem(s, j as int);
                        lemma_entries_total_remove(s, j as int);
                    }
                    let (key, mut sub) = self.children.remove(j);
                    sub.insert_from(path, from + 1);
                    self.children.push((key, sub));
                    proof {
                        let t = s.remove(j as int).push((key, sub));
                        lemma_swap_entry(s, j as int, (key, sub));
                        assert(old(self)@.child_or_empty(cs.first()) == s[j as int].1@);
                        assert(final(self)@.children =~= old(self)@.insert_path(cs).children);
                        assert(final(self)@ =~= old(self)@.insert_path(cs));
                        assert(entries_total(t) == entries_total(s.remove(j as int))
                            + sub.total_count()) by {
                            assert(t.drop_last() =~= s.remove(j as int));
                        }
                        assert forall|i: int| 0 <= i < t.len() implies (#[trigger] t[i]).1.wf()
                            && t[i].1.total_count() >= 1 by {
                            if !(t[i] == (key, sub)) {
                                let p = choose|p: int| 0 <= p < s.len() && t[i] == s[p];
                                assert(s[p].1.wf() && s[p].1.total_count() >= 1);
                            }
                        }
                    }
                }
                None => {
                    let mut sub = Trie::new();
                    sub.insert_from(path, from + 1);
                    let key = path[from].clone();
                    self.children.push((key, sub));
                    proof {
                        let t = s.push((key, sub));
                        lemma_push_new_entry(s, (key, sub));
                        assert(old(self)@.child_or_empty(cs.first()) == TrieModel::empty());
                        assert(final(self)@.children =~= old(self)@.insert_path(cs).children);
                        assert(final(self)@ =~= old(self)@.insert_path(cs));
                        assert(entries_total(t) == entries_total(s) + sub.total_count()) by {
                            assert(t.drop_last() =~= s);
                        }
                        assert forall|i: int| 0 <= i < t.len() implies (#[trigger] t[i]).1.wf()
                            && t[i].1.total_count() >= 1 by {
                            if i < t.len() - 1 {
                                assert(t[i] == s[i]);
                            }
                        }
                    }
                }
            }
        }
    }

    /// Inserts every path of `paths`, in order.  Each path is given as its
    /// ordered sequence of components.
    pub fn extend(&mut self, paths: &Vec<Vec<String>>)
        requires
            old(self).wf(),
            old(self).total_count() + paths@.len() <= usize::MAX,
        ensures
            final(self).wf(),
            final(self)@ == old(self)@.insert_all(paths.deep_view()),
            final(self).total_count() == old(self).total_count() + paths@.len(),
    {
        let n: usize = paths.len();
        let mut i: usize = 0;
        proof {
            assert(paths.deep_view().take(0) =~= Seq::<Seq<Seq<char>>>::empty());
        }
        while i < n
            invariant
                i <= n,
                n == paths@.len(),
                self.wf(),
                old(self).total_count() + paths@.len() <= usize::MAX,
                self.total_count() == old(self).total_count() + i,
                self@ == old(self)@.insert_all(paths.deep_view().take(i as int)),
            decreases n - i,
        {
            let ghost done = paths.deep_view().take(i as int);
            self.insert(&paths[i]);
            proof {
                old(self)@.lemma_insert_all_snoc(done, paths.deep_view()[i as int]);
                assert(done.push(paths.deep_view()[i as int]) =~= paths.deep_view().take(
                    i as int + 1));
            }
            i = i + 1;
        }
        proof {
            assert(paths.deep_view().take(n as int) =~= paths.deep_view());
        }
    }

    /// Builds a trie holding every path of `paths`, inserted in order into a
    /// freshly constructed empty trie.
    pub fn from_iter(paths: &Vec<Vec<String>>) -> (t: Trie)
        ensures
            t.wf(),
            t@ == TrieModel::empty().insert_all(paths.deep_view()),
            t.total_count() == paths@.len(),
    {
        let n: usize = paths.len();
        proof {
            assert(n <= usize::MAX);
        }
        let mut t = Trie::new();
        t.extend(paths);
        t
    }

    /// The child node reached through one component, if that component has
    /// an edge here.  Descending with `child` component by component is the
    /// trie's traversal.
    pub fn child(&self, component: &String) -> (r: Option<&Trie>)
        requires
            self.wf(),
        ensures
            match r {
                Some(sub) => {
                    &&& self@.children.contains_key(component@)
                    &&& sub@ == self@.children[component@]
                    &&& sub.wf()
                },
                None => !self@.children.contains_key(component@),
            },
    {
        proof {
            lemma_entries_model_key(self.children@, component@);
        }
        match Self::find_child(&self.children, component) {
            Some(j) => {
                proof {
                    lemma_entries_model_index(self.children@, j as int);
                }
                Some(&self.children[j].1)
            }
            None => None,
        }
    }

    /// Structural equality: true exactly when the two tries have the same
    /// shape and the same per-node counts.  The order in which children were
    /// created is irrelevant, as it is in the model.
    pub fn structural_eq(&self, other: &Trie) -> (r: bool)
        requires
            self.wf(),
            other.wf(),
        ensures
            r == (self@ == other@),
        decreases *self,
    {
        if self.count != other.count {
            return false;
        }
        let n: usize = self.children.len();
        let mut i: usize = 0;
        while i < n
            invariant
                i <= n,
                n == self.children@.len(),
                self.wf(),
                other.wf(),
                self.count == other.count,
                forall|p: int|
                    0 <= p < i ==> other@.children.contains_key(
                        (#[trigger] self.children@[p]).0@,
                    ) && other@.children[self.children@[p].0@] == self.children@[p].1@,
            decreases n - i,
        {
            let pair = &self.children[i];
            proof {
                lemma_entries_model_index(self.children@, i as int);
            }
            match Self::find_child(&other.children, &pair.0) {
                Some(j) => {
                    proof {
                        lemma_entries_model_index(other.children@, j as int);
                    }
                    if !pair.1.structural_eq(&other.children[j].1) {
                        proof {
                            assert(self@.children[pair.0@] != other@.children[pair.0@]);
                        }
                        return false;
                    }
                }
                None => {
                    proof {
                        lemma_entries_model_key(other.children@, pair.0@);
                        assert(self@.children.contains_key(pair.0@));
                        assert(!other@.children.contains_key(pair.0@));
                    }
                    return false;
                }
            }
            i = i + 1;
        }
        let m: usize = other.children.len();
        let mut j: usize = 0;
        while j < m
            invariant
                j <= m,
                m == other.children@.len(),
                self.wf(),
                other.wf(),
                self.count == other.count,
                forall|p: int|
                    0 <= p < self.children@.len() ==> other@.children.contains_key(
                        (#[trigger] self.children@[p]).0@,
                    ) && other@.children[self.children@[p].0@] == self.children@[p].1@,
                forall|q: int|
                    0 <= q < j ==> self@.children.contains_key(
                        (#[trigger] other.children@[q]).0@,
                    ),
            decreases m - j,
        {
            let opair = &other.children[j];
            proof {
                lemma_entries_model_index(other.children@, j as int);
            }
            match Self::find_child(&self.children, &opair.0) {
                Some(k) => {
                    proof {
                        lemma_entries_model_index(self.children@, k as int);
                    }
                }
                None => {
                    proof {
                        lemma_entries_model_key(self.children@, opair.0@);
                        assert(other@.children.contains_key(opair.0@));
                        assert(!self@.children.contains_key(opair.0@));
                    }
                    return false;
                }
            }
            j = j + 1;
        }
        proof {
            assert forall|k: Seq<char>| #[trigger] self@.children.contains_key(k)
                implies other@.children.contains_key(k) && other@.children[k]
                == self@.children[k] by {
                lemma_entries_model_key(self.children@, k);
                let p = choose|p: int|
                    0 <= p < self.children@.len() && (#[trigger] self.children@[p]).0@ == k;
                lemma_entries_model_index(self.children@, p);
            }
            assert forall|k: Seq<char>| #[trigger] other@.children.contains_key(k)
                implies self@.children.contains_key(k) by {
                lemma_entries_model_key(other.children@, k);
                let q = choose|q: int|
                    0 <= q < other.children@.len() && (#[trigger] other.children@[q]).0@ == k;
            }
            assert(self@.children =~= other@.children);
            assert(self@ == other@);
        }
        true
    }

    /// Looks a component up among the children, returning the index of its
    /// entry if there is one.
    fn find_child(children: &Vec<(String, Trie)>, c: &String) -> (r: Option<usize>)
        ensures
            match r {
                Some(j) => j < children@.len() && children@[j as int].0@ == c@,
                None => forall|i: int| 0 <= i < children@.len() ==> (#[trigger] children@[i]).0@ != c@,
            },
    {
        let n: usize = children.len();
        let mut j: usize = 0;
        while j < n
            invariant
                j <= n,
                n == children@.len(),
                forall|i: int| 0 <= i < j ==> (#[trigger] children@[i]).0@ != c@,
            decreases n - j,
        {
            if children[j].0 == *c {
                return Some(j);
            }
            j = j + 1;
        }
        None
    }
}

impl Default for Trie {
    /// The empty trie.
    fn default() -> (t: Trie)
        ensures
            t@ == TrieModel::empty(),
            t.wf(),
            t.total_count() == 0,
    {
        Trie::new()
    }
}

/// Replacing the entry at index `j` by another entry for the same component
/// (moved to the end) updates exactly that component's image in the model.
pub proof fn lemma_swap_entry(s: Seq<(String, Trie)>, j: int, x: (String, Trie))
    requires
        distinct_keys(s),
        0 <= j < s.len(),
        x.0@ == s[j].0@,
    ensures
        entries_model(s.remove(j).push(x)) =~= entries_model(s).insert(x.0@, x.1@),
        distinct_keys(s.remove(j).push(x)),
        forall|i: int|
            0 <= i < s.remove(j).push(x).len() ==> (#[trigger] s.remove(j).push(x)[i] == x
                || exists|p: int| 0 <= p < s.len() && s.remove(j).push(x)[i] == s[p]),
{
    s.remove_ensures(j);
    let t = s.remove(j).push(x);
    assert forall|i: int| 0 <= i < t.len() implies (#[trigger] t[i] == x || exists|p: int|
        0 <= p < s.len() && t[i] == s[p]) by {
        if i < t.len() - 1 {
            let p: int = if i < j { i } else { i + 1 };
            assert(t[i] == s[p]);
        }
    }
    lemma_entries_model_remove(s, j);
    assert forall|p: int, q: int| 0 <= p < q < t.len() implies (#[trigger] t[p]).0@ != (
        #[trigger] t[q]).0@ by {
        if q == t.len() - 1 {
            let p0: int = if p < j { p } else { p + 1 };
            assert(t[p] == s[p0]);
            assert(p0 != j);
            assert(s[p0].0@ != s[j].0@);
        } else {
            assert(t[p] == s.remove(j)[p] && t[q] == s.remove(j)[q]);
        }
    }
    assert(t.drop_last() =~= s.remove(j));
    assert(entries_model(t) == entries_model(s.remove(j)).insert(x.0@, x.1@));
    assert(entries_model(t) =~= entries_model(s).insert(x.0@, x.1@));
}

/// Appending an entry for a fresh component adds exactly that component to
/// the model.
pub proof fn lemma_push_new_entry(s: Seq<(String, Trie)>, x: (String, Trie))
    requires
        distinct_keys(s),
        forall|i: int| 0 <= i < s.len() ==> (#[trigger] s[i]).0@ != x.0@,
    ensures
        entries_model(s.push(x)) =~= entries_model(s).insert(x.0@, x.1@),
        distinct_keys(s.push(x)),
{
    let t = s.push(x);
    assert(t.drop_last() =~= s);
    assert(entries_model(t) == entries_model(s).insert(x.0@, x.1@));
    assert forall|p: int, q: int| 0 <= p < q < t.len() implies (#[trigger] t[p]).0@ != (
        #[trigger] t[q]).0@ by {
        if q == t.len() - 1 {
            assert(t[p] == s[p]);
        } else {
            assert(t[p] == s[p] && t[q] == s[q]);
        }
    }
}

/// A nonempty entry sequence has a nonempty model.
pub proof fn lemma_entries_model_nonempty(s: Seq<(String, Trie)>)
    requires
        s.len() > 0,
    ensures
        entries_model(s) != Map::<Seq<char>, TrieModel>::empty(),
{
    lemma_entries_model_key(s, s[0].0@);
    assert(s[0].0@ == s[0].0@);
    assert(entries_model(s).contains_key(s[0].0@));
}

} // verus!
