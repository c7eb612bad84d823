//! The laws of the trie, stated over the order-free model and, where the
//! executable representation matters, over well-formed tries.
//!
//! Count conservation is stated directly in the contracts of `insert`,
//! `extend` and `from_iter` (`total_count` grows by exactly the number of
//! inserted paths); the proofs here cover the laws that relate several
//! operations or speak about the shape of the result.

use vstd::prelude::*;

use crate::model::TrieModel;
use crate::trie::Trie;
use crate::trie::distinct_keys;
use crate::trie::lemma_entries_model_index;
use crate::trie::lemma_entries_model_nonempty;
use crate::trie::lemma_entries_model_key;

verus! {

/// Two single-path insertions commute: the resulting model does not depend
/// on their order.
pub proof fn lemma_insert_path_commutes(m: TrieModel, p: Seq<Seq<char>>, q: Seq<Seq<char>>)
    ensures
        m.insert_path(p).insert_path(q) == m.insert_path(q).insert_path(p),
    decreases p.len(),
{
    if p.len() == 0 && q.len() == 0 {
        assert(m.insert_path(p).insert_path(q) =~= m.insert_path(q).insert_path(p));
    } else if p.len() == 0 {
        assert(m.insert_path(p).child_or_empty(q.first()) == m.child_or_empty(q.first()));
        assert(m.insert_path(p).insert_path(q) =~= m.insert_path(q).insert_path(p));
    } else if q.len() == 0 {
        assert(m.insert_path(q).child_or_empty(p.first()) == m.child_or_empty(p.first()));
        assert(m.insert_path(p).insert_path(q) =~= m.insert_path(q).insert_path(p));
    } else if p.first() == q.first() {
        let c = p.first();
        let sub = m.child_or_empty(c);
        lemma_insert_path_commutes(sub, p.drop_first(), q.drop_first());
        assert(m.insert_path(p).child_or_empty(c) == sub.insert_path(p.drop_first()));
        assert(m.insert_path(q).child_or_empty(c) == sub.insert_path(q.drop_first()));
        assert(m.insert_path(p).insert_path(q).children =~= m.children.insert(
            c,
            sub.insert_path(p.drop_first()).insert_path(q.drop_first()),
        ));
        assert(m.insert_path(q).insert_path(p).children =~= m.children.insert(
            c,
            sub.insert_path(q.drop_first()).insert_path(p.drop_first()),
        ));
        assert(m.insert_path(p).insert_path(q).children == m.insert_path(q).insert_path(
            p,
        ).children);
        assert(m.insert_path(p).insert_path(q).count == m.insert_path(q).insert_path(p).count);
        assert(m.insert_path(p).insert_path(q) == m.insert_path(q).insert_path(p));
    } else {
        let a = m.child_or_empty(p.first()).insert_path(p.drop_first());
        let b = m.child_or_empty(q.first()).insert_path(q.drop_first());
        assert(m.insert_path(p).child_or_empty(q.first()) == m.child_or_empty(q.first()));
        assert(m.insert_path(q).child_or_empty(p.first()) == m.child_or_empty(p.first()));
        assert(m.insert_path(p).insert_path(q).children =~= m.children.insert(
            p.first(),
            a,
        ).insert(q.first(), b));
        assert(m.insert_path(q).insert_path(p).children =~= m.children.insert(
            q.first(),
            b,
        ).insert(p.first(), a));
        assert(m.insert_path(p).insert_path(q).children =~= m.insert_path(q).insert_path(
            p,
        ).children);
        assert(m.insert_path(p).insert_path(q).count == m.insert_path(q).insert_path(p).count);
        assert(m.insert_path(p).insert_path(q) == m.insert_path(q).insert_path(p));
    }
}

/// Any one path of a bulk insertion may be pulled to the front without
/// changing the result.
pub proof fn lemma_insert_all_pull(m: TrieModel, ps: Seq<Seq<Seq<char>>>, k: int)
    requires
        0 <= k < ps.len(),
    ensures
        m.insert_all(ps) == m.insert_path(ps[k]).insert_all(ps.remove(k)),
    decreases k,
{
    ps.remove_ensures(k);
    if k == 0 {
        assert(ps.remove(0) =~= ps.drop_first());
    } else {
        lemma_insert_all_pull(m.insert_path(ps.first()), ps.drop_first(), k - 1);
        assert(ps.drop_first()[k - 1] == ps[k]);
        lemma_insert_path_commutes(m, ps.first(), ps[k]);
        assert(ps.remove(k).first() == ps.first());
        assert(ps.remove(k).drop_first() =~= ps.drop_first().remove(k - 1)) by {
            ps.drop_first().remove_ensures(k - 1);
        }
        assert(m.insert_path(ps[k]).insert_all(ps.remove(k)) == m.insert_path(
            ps[k],
        ).insert_path(ps.first()).insert_all(ps.drop_first().remove(k - 1)));
    }
}

/// Structural determinism: two orderings of the same multiset of paths build
/// the same model — same nodes, same per-node counts, regardless of the
/// order in which children came to exist.
pub proof fn lemma_structural_determinism(
    m: TrieModel,
    ps1: Seq<Seq<Seq<char>>>,
    ps2: Seq<Seq<Seq<char>>>,
)
    requires
        ps1.to_multiset() == ps2.to_multiset(),
    ensures
        m.insert_all(ps1) == m.insert_all(ps2),
    decreases ps1.len(),
{
    ps1.to_multiset_ensures();
    ps2.to_multiset_ensures();
    if ps1.len() == 0 {
        assert(ps2.len() == 0);
    } else {
        let p = ps1.first();
        assert(ps1.contains(p)) by {
            assert(ps1[0] == p);
        }
        assert(ps2.to_multiset().count(p) > 0);
        assert(ps2.contains(p));
        let k = choose|k: int| 0 <= k < ps2.len() && ps2[k] == p;
        lemma_insert_all_pull(m, ps2, k);
        assert(ps1.drop_first() =~= ps1.remove(0));
        assert(ps1.remove(0).to_multiset() =~= ps1.to_multiset().remove(p));
        assert(ps2.remove(k).to_multiset() =~= ps2.to_multiset().remove(p));
        lemma_structural_determinism(m.insert_path(p), ps1.drop_first(), ps2.remove(k));
    }
}

/// The count found at the end of a chain, or zero if the chain is absent.
pub open spec fn count_at(m: TrieModel, cs: Seq<Seq<char>>) -> nat {
    match m.node_at(cs) {
        Some(n) => n.count,
        None => 0,
    }
}

/// Inserting a path creates (or finds) the descending chain of its
/// components and increments exactly the terminal node's count.
pub proof fn lemma_insert_path_node_at(m: TrieModel, cs: Seq<Seq<char>>)
    ensures
        m.insert_path(cs).node_at(cs) is Some,
        count_at(m.insert_path(cs), cs) == count_at(m, cs) + 1,
    decreases cs.len(),
{
    if cs.len() > 0 {
        let c = cs.first();
        let sub = m.child_or_empty(c);
        lemma_insert_path_node_at(sub, cs.drop_first());
        assert(m.insert_path(cs).children[c] == sub.insert_path(cs.drop_first()));
        if !m.children.contains_key(c) {
            assert(count_at(TrieModel::empty(), cs.drop_first()) == count_at(m, cs)) by {
                if cs.drop_first().len() == 0 {
                    assert(TrieModel::empty().node_at(cs.drop_first()) == Some(
                        TrieModel::empty(),
                    ));
                }
            }
        }
    }
}

/// An existing chain survives any further insertion, and the count at its
/// end never decreases.
pub proof fn lemma_insert_path_preserves_chain(
    m: TrieModel,
    cs: Seq<Seq<char>>,
    ds: Seq<Seq<char>>,
)
    requires
        m.node_at(cs) is Some,
    ensures
        m.insert_path(ds).node_at(cs) is Some,
        count_at(m.insert_path(ds), cs) >= count_at(m, cs),
    decreases cs.len(),
{
    if cs.len() == 0 {
    } else if ds.len() == 0 {
        assert(m.insert_path(ds).children == m.children);
    } else if cs.first() == ds.first() {
        let c = cs.first();
        assert(m.children.contains_key(c));
        lemma_insert_path_preserves_chain(m.children[c], cs.drop_first(), ds.drop_first());
        assert(m.insert_path(ds).children[c] == m.children[c].insert_path(ds.drop_first()));
    } else {
        assert(m.insert_path(ds).children[cs.first()] == m.children[cs.first()]);
    }
}

/// An existing chain survives a whole bulk insertion.
pub proof fn lemma_insert_all_preserves_chain(
    m: TrieModel,
    cs: Seq<Seq<char>>,
    ps: Seq<Seq<Seq<char>>>,
)
    requires
        m.node_at(cs) is Some,
    ensures
        m.insert_all(ps).node_at(cs) is Some,
        count_at(m.insert_all(ps), cs) >= count_at(m, cs),
    decreases ps.len(),
{
    if ps.len() > 0 {
        lemma_insert_path_preserves_chain(m, cs, ps.first());
        lemma_insert_all_preserves_chain(m.insert_path(ps.first()), cs, ps.drop_first());
    }
}

/// Prefix containment: after inserting the paths `ps`, each inserted path's
/// component chain descends from the root to a node whose count is at least
/// one.  Children form a map, so that chain is the only one following those
/// components.
pub proof fn lemma_prefix_containment(m: TrieModel, ps: Seq<Seq<Seq<char>>>, k: int)
    requires
        0 <= k < ps.len(),
    ensures
        m.insert_all(ps).node_at(ps[k]) is Some,
        count_at(m.insert_all(ps), ps[k]) >= 1,
    decreases ps.len(),
{
    if k == 0 {
        lemma_insert_path_node_at(m, ps.first());
        lemma_insert_all_preserves_chain(m.insert_path(ps.first()), ps[0], ps.drop_first());
    } else {
        assert(ps.drop_first()[k - 1] == ps[k]);
        lemma_prefix_containment(m.insert_path(ps.first()), ps.drop_first(), k - 1);
    }
}

/// Leaf terminality: in a well-formed trie, every node below the root that
/// has no children holds a count of at least one.  (The root itself is the
/// one exception: a freshly constructed trie is a childless root with count
/// zero.)
pub proof fn lemma_leaf_terminality(t: Trie, cs: Seq<Seq<char>>)
    requires
        t.wf(),
        cs.len() >= 1,
        t@.node_at(cs) is Some,
        t@.node_at(cs)->Some_0.children == Map::<Seq<char>, TrieModel>::empty(),
    ensures
        t@.node_at(cs)->Some_0.count >= 1,
    decreases cs.len(),
{
    let c = cs.first();
    assert(t@.children.contains_key(c));
    lemma_entries_model_key(t.children@, c);
    let i = choose|i: int| 0 <= i < t.children@.len() && (#[trigger] t.children@[i]).0@ == c;
    lemma_entries_model_index(t.children@, i);
    let sub = t.children@[i].1;
    assert(t@.children[c] == sub@);
    if cs.len() == 1 {
        assert(sub@.node_at(cs.drop_first()) == Some(sub@));
        assert(sub.children@.len() == 0) by {
            if sub.children@.len() > 0 {
                lemma_entries_model_nonempty(sub.children@);
            }
        }
        assert(sub.total_count() == sub.count);
    } else {
        lemma_leaf_terminality(sub, cs.drop_first());
    }
}

/// No orphan nodes, the uniqueness half: in a well-formed trie a chain of
/// components leads to at most one node — the components on a node's edges
/// are pairwise distinct, so every descent is forced.
pub proof fn lemma_chain_reaches_one_node(t: Trie, cs: Seq<Seq<char>>, a: Trie, b: Trie)
    requires
        t.wf(),
        t.reaches(cs, a),
        t.reaches(cs, b),
    ensures
        a == b,
    decreases cs.len(),
{
    if cs.len() > 0 {
        assert(distinct_keys(t.children@));
        let i = choose|i: int|
            0 <= i < t.children@.len() && (#[trigger] t.children@[i]).0@ == cs.first()
                && t.children@[i].1.reaches(cs.drop_first(), a);
        let j = choose|j: int|
            0 <= j < t.children@.len() && (#[trigger] t.children@[j]).0@ == cs.first()
                && t.children@[j].1.reaches(cs.drop_first(), b);
        assert(i == j);
        lemma_chain_reaches_one_node(t.children@[i].1, cs.drop_first(), a, b);
    }
}

/// A chain that reaches a node in the executable tree reaches that node's
/// abstraction in the model, so the model lemmas speak about the nodes a
/// traversal of the tree actually visits.
pub proof fn lemma_reaches_node_at(t: Trie, cs: Seq<Seq<char>>, sub: Trie)
    requires
        t.wf(),
        t.reaches(cs, sub),
    ensures
        t@.node_at(cs) == Some(sub@),
    decreases cs.len(),
{
    if cs.len() > 0 {
        let i = choose|i: int|
            0 <= i < t.children@.len() && (#[trigger] t.children@[i]).0@ == cs.first()
                && t.children@[i].1.reaches(cs.drop_first(), sub);
        lemma_entries_model_index(t.children@, i);
        lemma_reaches_node_at(t.children@[i].1, cs.drop_first(), sub);
    }
}

/// No orphan nodes, the existence half: every child of a node that some
/// chain reaches is itself reached by that chain extended with the child's
/// component.  Since the root is reached by the empty chain, every node of
/// the trie is reachable from the root.
pub proof fn lemma_every_child_reachable(t: Trie, cs: Seq<Seq<char>>, sub: Trie, i: int)
    requires
        t.reaches(cs, sub),
        0 <= i < sub.children@.len(),
    ensures
        t.reaches(cs.push(sub.children@[i].0@), sub.children@[i].1),
    decreases cs.len(),
{
    let ext = cs.push(sub.children@[i].0@);
    if cs.len() == 0 {
        assert(sub == t);
        assert(ext.first() == t.children@[i].0@);
        assert(ext.drop_first() =~= Seq::<Seq<char>>::empty());
        assert(t.children@[i].1.reaches(ext.drop_first(), t.children@[i].1));
    } else {
        let p = choose|p: int|
            0 <= p < t.children@.len() && (#[trigger] t.children@[p]).0@ == cs.first()
                && t.children@[p].1.reaches(cs.drop_first(), sub);
        lemma_every_child_reachable(t.children@[p].1, cs.drop_first(), sub, i);
        assert(ext.first() == cs.first());
        assert(ext.drop_first() =~= cs.drop_first().push(sub.children@[i].0@));
        assert(t.children@[p].1.reaches(ext.drop_first(), sub.children@[i].1));
    }
}

} // verus!
