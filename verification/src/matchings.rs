//! The container of discovered correspondences.
//!
//! A matching is keyed by an *unordered* pair of node identities: the pair
//! (a, b) and the pair (b, a) name the same key, so a lookup succeeds
//! whichever way round the two nodes are given.  The container is append-only:
//! it is built by union during the matching phase and only read afterwards.

use vstd::prelude::*;

use crate::cst_node::CSTNode;

verus! {

/// One correspondence between two subtrees: an integer similarity score and a
/// flag saying whether the two subtrees are fully isomorphic.
#[derive(Clone, Copy, PartialEq, Eq, Structural, Debug)]
pub struct MatchingEntry {
    pub score: usize,
    pub is_perfect_match: bool,
}

impl MatchingEntry {
    /// Builds the entry for a pair of subtrees from its score: the pair is a
    /// perfect match exactly when the score covers every node of both sides.
    pub fn new(left: &CSTNode, right: &CSTNode, score: usize) -> (r: MatchingEntry)
        requires
            left.count() <= usize::MAX,
            right.count() <= usize::MAX,
        ensures
            r.score == score,
            r.is_perfect_match == (score == left.count() && score == right.count()),
    {
        let left_count = left.node_count();
        let right_count = right.node_count();
        MatchingEntry { score, is_perfect_match: score == left_count && score == right_count }
    }
}

/// One stored correspondence: the unordered identity pair and its entry.
#[derive(Clone, Copy, PartialEq, Eq, Structural, Debug)]
pub struct MatchingRecord {
    pub left_id: u64,
    pub right_id: u64,
    pub entry: MatchingEntry,
}

/// Whether a record's unordered key is the pair (a, b).
pub open spec fn key_matches(rec: MatchingRecord, a: u64, b: u64) -> bool {
    (rec.left_id == a && rec.right_id == b) || (rec.left_id == b && rec.right_id == a)
}

/// The first entry stored for the unordered pair (a, b), if any.
pub open spec fn lookup(s: Seq<MatchingRecord>, a: u64, b: u64) -> Option<MatchingEntry>
    decreases s.len(),
{
    if s.len() == 0 {
        None
    } else if key_matches(s[0], a, b) {
        Some(s[0].entry)
    } else {
        lookup(s.drop_first(), a, b)
    }
}

/// Whether one record involves the identity `id`, on either side.
pub open spec fn record_involves(rec: MatchingRecord, id: u64) -> bool {
    rec.left_id == id || rec.right_id == id
}

/// Whether some record involves the identity `id`, on either side.
pub open spec fn involves(s: Seq<MatchingRecord>, id: u64) -> bool {
    exists|i: int| 0 <= i < s.len() && #[trigger] record_involves(s[i], id)
}

/// Lookup ignores the order of its two arguments.
pub proof fn lemma_lookup_symmetric(s: Seq<MatchingRecord>, a: u64, b: u64)
    ensures
        lookup(s, a, b) == lookup(s, b, a),
    decreases s.len(),
{
    if s.len() > 0 {
        lemma_lookup_symmetric(s.drop_first(), a, b);
    }
}

/// The growable set of correspondences produced by the matching engine.
pub struct Matchings {
    records: Vec<MatchingRecord>,
}

impl View for Matchings {
    type V = Seq<MatchingRecord>;

    closed spec fn view(&self) -> Seq<MatchingRecord> {
        self.records@
    }
}

impl Matchings {
    /// A container with no correspondences.
    pub fn empty() -> (r: Matchings)
        ensures
            r@ == Seq::<MatchingRecord>::empty(),
    {
        let m = Matchings { records: Vec::new() };
        proof {
            assert(m@ =~= Seq::<MatchingRecord>::empty());
        }
        m
    }

    /// A container holding one correspondence, for the pair (left, right).
    pub fn from_single(left: &CSTNode, right: &CSTNode, entry: MatchingEntry) -> (r: Matchings)
        ensures
            r@ =~= seq![
                MatchingRecord {
                    left_id: left.id_spec(),
                    right_id: right.id_spec(),
                    entry: entry,
                },
            ],
    {
        let mut records: Vec<MatchingRecord> = Vec::new();
        records.push(MatchingRecord { left_id: left.id(), right_id: right.id(), entry });
        Matchings { records }
    }

    /// Appends every correspondence of `other` (union of the two containers).
    pub fn extend(&mut self, other: &Matchings)
        ensures
            final(self)@ == old(self)@ + other@,
    {
        let mut k: usize = 0;
        while k < other.records.len()
            invariant
                k <= other.records@.len(),
                self.records@ == old(self).records@ + other.records@.take(k as int),
            decreases other.records@.len() - k,
        {
            self.records.push(other.records[k]);
            proof {
                assert(old(self).records@ + other.records@.take(k + 1) =~= (old(self).records@
                    + other.records@.take(k as int)).push(other.records@[k as int]));
            }
            k = k + 1;
        }
        proof {
            assert(other.records@.take(other.records@.len() as int) =~= other.records@);
        }
    }

    /// The entry stored for the pair (left, right), in either order.
    ///
    /// The lookup is order-insensitive: the result for (left, right) is the
    /// result for (right, left).
    pub fn get_matching_entry(&self, left: &CSTNode, right: &CSTNode) -> (r: Option<MatchingEntry>)
        ensures
            r == lookup(self@, left.id_spec(), right.id_spec()),
            r == lookup(self@, right.id_spec(), left.id_spec()),
    {
        let a = left.id();
        let b = right.id();
        let mut i: usize = 0;
        proof {
            assert(self.records@.skip(0) =~= self.records@);
            lemma_lookup_symmetric(self@, a, b);
        }
        while i < self.records.len()
            invariant
                i <= self.records@.len(),
                a == left.id_spec(),
                b == right.id_spec(),
                lookup(self@, a, b) == lookup(self.records@.skip(i as int), a, b),
                lookup(self@, a, b) == lookup(self@, b, a),
            decreases self.records@.len() - i,
        {
            let rec = self.records[i];
            proof {
                assert(self.records@.skip(i as int)[0] == self.records@[i as int]);
                assert(self.records@.skip(i as int).drop_first() =~= self.records@.skip(
                    i as int + 1,
                ));
            }
            if (rec.left_id == a && rec.right_id == b) || (rec.left_id == b && rec.right_id
                == a) {
                proof {
                    assert(key_matches(self.records@.skip(i as int)[0], a, b));
                    assert(lookup(self.records@.skip(i as int), a, b) == Some(
                        self.records@[i as int].entry,
                    ));
                }
                return Some(rec.entry);
            }
            i = i + 1;
        }
        proof {
            assert(self.records@.skip(self.records@.len() as int).len() == 0);
        }
        None
    }

    /// Whether some correspondence involves the given node, on either side.
    pub fn has_match_involving(&self, node: &CSTNode) -> (r: bool)
        ensures
            r == involves(self@, node.id_spec()),
    {
        let id = node.id();
        let mut i: usize = 0;
        while i < self.records.len()
            invariant
                i <= self.records@.len(),
                id == node.id_spec(),
                forall|j: int| 0 <= j < i ==> !#[trigger] record_involves(self.records@[j], id),
            decreases self.records@.len() - i,
        {
            let rec = self.records[i];
            if rec.left_id == id || rec.right_id == id {
                proof {
                    assert(record_involves(self.records@[i as int], id));
                }
                return true;
            }
            proof {
                assert(!record_involves(self.records@[i as int], id));
            }
            i = i + 1;
        }
        false
    }
}

} // verus!
