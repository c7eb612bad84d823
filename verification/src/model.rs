//! The mathematical model of a trie: a rooted tree whose edges are labelled
//! with path components and whose nodes carry occurrence counts.  Children
//! are a `Map`, so two model values are equal exactly when they have the same
//! shape and the same counts, with no notion of child order.

use vstd::prelude::*;

verus! {

/// A trie node as mathematics: a mapping from component (a character
/// sequence) to subtree, plus the number of inserted paths that end here.
#[verifier::ext_equal]
pub struct TrieModel {
    pub children: Map<Seq<char>, TrieModel>,
    pub count: nat,
}

impl TrieModel {
    /// The model of a freshly constructed trie: no children, count zero.
    pub open spec fn empty() -> TrieModel {
        TrieModel { children: Map::empty(), count: 0 }
    }

    /// The subtree reached by one component, or an empty node if the
    /// component has no edge yet.  Insertion descends through this.
    pub open spec fn child_or_empty(self, c: Seq<char>) -> TrieModel {
        if self.children.contains_key(c) {
            self.children[c]
        } else {
            TrieModel::empty()
        }
    }

    /// The effect of inserting one path, given as its ordered component
    /// sequence: descend along the components, creating empty nodes where
    /// needed, and increment the count of the node where the path ends.
    pub open spec fn insert_path(self, cs: Seq<Seq<char>>) -> TrieModel
        decreases cs.len(),
    {
        if cs.len() == 0 {
            TrieModel { children: self.children, count: self.count + 1 }
        } else {
            TrieModel {
                children: self.children.insert(
                    cs.first(),
                    self.child_or_empty(cs.first()).insert_path(cs.drop_first()),
                ),
                count: self.count,
            }
        }
    }

    /// The effect of inserting a sequence of paths, in order.
    pub open spec fn insert_all(self, ps: Seq<Seq<Seq<char>>>) -> TrieModel
        decreases ps.len(),
    {
        if ps.len() == 0 {
            self
        } else {
            self.insert_path(ps.first()).insert_all(ps.drop_first())
        }
    }

    /// Bulk insertion taken from the back: inserting `ps` and then one more
    /// path is the same as inserting `ps.push(p)` in one sweep.  This is the
    /// step that makes bulk construction and repeated single insertion
    /// interchangeable.
    pub proof fn lemma_insert_all_snoc(self, ps: Seq<Seq<Seq<char>>>, p: Seq<Seq<char>>)
        ensures
            self.insert_all(ps.push(p)) == self.insert_all(ps).insert_path(p),
        decreases ps.len(),
    {
        if ps.len() == 0 {
            assert(ps.push(p).first() == p);
            assert(ps.push(p).drop_first() =~= Seq::<Seq<Seq<char>>>::empty());
            assert(self.insert_all(ps.push(p)) == self.insert_path(p).insert_all(
                ps.push(p).drop_first()));
            assert(self.insert_path(p).insert_all(ps.push(p).drop_first())
                == self.insert_path(p));
            assert(self.insert_all(ps) == self);
        } else {
            assert(ps.push(p).first() == ps.first());
            assert(ps.push(p).drop_first() =~= ps.drop_first().push(p));
            self.insert_path(ps.first()).lemma_insert_all_snoc(ps.drop_first(), p);
            assert(self.insert_all(ps.push(p)) == self.insert_path(ps.first()).insert_all(
                ps.drop_first().push(p)));
            assert(self.insert_all(ps) == self.insert_path(ps.first()).insert_all(
                ps.drop_first()));
        }
    }

    /// The node reached from `self` by the descending chain of components
    /// `cs`, if every edge on the way exists.  Because children form a map,
    /// such a chain is unique whenever it exists.
    pub open spec fn node_at(self, cs: Seq<Seq<char>>) -> Option<TrieModel>
        decreases cs.len(),
    {
        if cs.len() == 0 {
            Some(self)
        } else if self.children.contains_key(cs.first()) {
            self.children[cs.first()].node_at(cs.drop_first())
        } else {
            None
        }
    }
}

} // verus!
