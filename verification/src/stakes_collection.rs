//! An ordered store of [`Stake`]s: monotonic id issuance, lookup by
//! identity, hierarchy queries, substring search, and in-place update.

use vstd::prelude::*;
use crate::codec::{enc_doc, lemma_doc_round_trip, lemma_p_doc_wf, p_doc, stakes_wf, DecodeError};
use crate::stake::{Stake, StakeError, StakeId, StakeModel};
use crate::text::{chars_of, contains_sub, is_substr, lowercase, lower_of, spec_trim, string_from_chars, trim_chars};

verus! {

broadcast use vstd::seq_lib::group_filter_ensures;

/// The mathematical value of a [`StakesCollection`]: the counter and the
/// stored entities, in insertion order.
pub ghost struct CollectionModel {
    pub next_id: u32,
    pub stakes: Seq<StakeModel>,
}

impl CollectionModel {
    /// The timestamps of every stored stake name real instants.
    pub open spec fn wf(self) -> bool {
        forall|i: int| 0 <= i < self.stakes.len() ==> (#[trigger] self.stakes[i]).wf()
    }
}

/// The views of a sequence of borrowed stakes.
pub open spec fn views_of(s: Seq<&Stake>) -> Seq<StakeModel> {
    s.map_values(|x: &Stake| x@)
}

/// The active stakes of `s`, in order.
pub open spec fn active_of(s: Seq<StakeModel>) -> Seq<StakeModel> {
    s.filter(|m: StakeModel| m.active())
}

/// The completed stakes of `s`, in order; a stake both completed and
/// dropped counts as completed.
pub open spec fn completed_of(s: Seq<StakeModel>) -> Seq<StakeModel> {
    s.filter(|m: StakeModel| m.complete)
}

/// Having `p` as parent.
pub open spec fn parent_pred(p: u32) -> spec_fn(StakeModel) -> bool {
    |m: StakeModel| m.parent == Some(p)
}

/// The stakes of `s` whose parent is `p`, in order.
pub open spec fn children_of(s: Seq<StakeModel>, p: u32) -> Seq<StakeModel> {
    s.filter(parent_pred(p))
}

/// Having a lowercased name in which `q` occurs.
pub open spec fn name_match_pred(q: Seq<char>) -> spec_fn(StakeModel) -> bool {
    |m: StakeModel| is_substr(q, lower_of(m.name))
}

/// The stakes of `s` whose lowercased name contains `q`, in order.
pub open spec fn matching_of(s: Seq<StakeModel>, q: Seq<char>) -> Seq<StakeModel> {
    s.filter(name_match_pred(q))
}

/// How a stake read back after a complete-marking relates to the stored
/// one: the flag is set, `date_modified` has moved to some real instant,
/// and every other field is untouched.
pub open spec fn marked_complete(m0: StakeModel, m1: StakeModel) -> bool {
    m1.complete && m1.dropped == m0.dropped && m1.id == m0.id && m1.name == m0.name && m1.parent
        == m0.parent && m1.note == m0.note && m1.created == m0.created && m1.modified.wf()
}

/// How a stake read back after a drop-marking relates to the stored one.
pub open spec fn marked_dropped(m0: StakeModel, m1: StakeModel) -> bool {
    m1.dropped && m1.complete == m0.complete && m1.id == m0.id && m1.name == m0.name && m1.parent
        == m0.parent && m1.note == m0.note && m1.created == m0.created && m1.modified.wf()
}

/// Whether some stake in `s` carries the id `id`.
pub open spec fn has_id(s: Seq<StakeModel>, id: u32) -> bool {
    exists|i: int| 0 <= i < s.len() && s[i].id == id
}

/// Whether `i` is the first position in `s` whose stake carries `id`.
pub open spec fn first_match_at(s: Seq<StakeModel>, id: u32, i: int) -> bool {
    0 <= i < s.len() && s[i].id == id && (forall|j: int| 0 <= j < i ==> s[j].id != id)
}

/// An ordered store of stakes with its own id-issuance counter.
#[derive(Debug, PartialEq, Eq)]
pub struct StakesCollection {
    stakes: Vec<Stake>,
    next_id: StakeId,
}

impl View for StakesCollection {
    type V = CollectionModel;

    closed spec fn view(&self) -> CollectionModel {
        CollectionModel {
            next_id: self.next_id.0,
            stakes: self.stakes@.map_values(|s: Stake| s@),
        }
    }
}

impl StakesCollection {
    /// An empty collection whose first issued id will be 1.
    pub fn new() -> (r: StakesCollection)
        ensures
            r@.next_id == 1,
            r@.stakes.len() == 0,
    {
        StakesCollection { stakes: Vec::new(), next_id: StakeId(1) }
    }

    /// Appends `stake` at the end of the order.  Nothing is checked about
    /// its id: issuing ids through `generate_id` is the caller's side of
    /// the contract.
    pub fn add_stake(&mut self, stake: Stake)
        ensures
            final(self)@.stakes == old(self)@.stakes.push(stake@),
            final(self)@.next_id == old(self)@.next_id,
    {
        self.stakes.push(stake);
        proof {
            assert(final(self)@.stakes =~= old(self)@.stakes.push(stake@));
        }
    }

    /// The number of stored stakes.
    pub fn len(&self) -> (r: usize)
        ensures
            r == self@.stakes.len(),
    {
        self.stakes.len()
    }

    /// Whether the collection stores no stake at all.
    pub fn is_empty(&self) -> (r: bool)
        ensures
            r == (self@.stakes.len() == 0),
    {
        self.stakes.is_empty()
    }

    /// The id the next call to `generate_id` will hand out, without
    /// consuming it.
    pub fn next_id(&self) -> (r: StakeId)
        ensures
            r.0 == self@.next_id,
    {
        StakeId(self.next_id.0)
    }

    /// Hands out the current counter value and moves the counter up by
    /// one, so that successive calls yield distinct, strictly increasing
    /// ids.
    pub fn generate_id(&mut self) -> (r: StakeId)
        requires
            old(self)@.next_id < u32::MAX,
        ensures
            r.0 == old(self)@.next_id,
            final(self)@.next_id == old(self)@.next_id + 1,
            final(self)@.stakes == old(self)@.stakes,
    {
        let current = StakeId(self.next_id.0);
        self.next_id.0 = self.next_id.0 + 1;
        current
    }

    /// The first stored stake carrying `id`, if any.
    pub fn get_by_id(&self, id: &StakeId) -> (r: Option<&Stake>)
        ensures
            r is Some <==> has_id(self@.stakes, id.0),
            r matches Some(s) ==> exists|i: int|
                first_match_at(self@.stakes, id.0, i) && s@ == self@.stakes[i],
    {
        let ghost m = self@.stakes;
        let mut i: usize = 0;
        while i < self.stakes.len()
            invariant
                0 <= i <= self.stakes@.len(),
                m == self@.stakes,
                m.len() == self.stakes@.len(),
                forall|j: int| 0 <= j < i ==> m[j].id != id.0,
            decreases self.stakes@.len() - i,
        {
            if self.stakes[i].stake_id == *id {
                proof {
                    assert(m[i as int] == self.stakes@[i as int]@);
                    assert(first_match_at(m, id.0, i as int));
                }
                return Some(&self.stakes[i]);
            }
            i = i + 1;
        }
        None
    }

    /// Replaces the first stored stake whose id equals `stake.stake_id` by
    /// `stake`, keeping its position; fails with `StakeNotFound`, leaving
    /// the collection untouched, when no stake carries that id.
    pub fn update_stake(&mut self, stake: Stake) -> (r: Result<(), StakeError>)
        ensures
            r is Ok <==> has_id(old(self)@.stakes, stake.stake_id.0),
            r is Ok ==> exists|i: int|
                first_match_at(old(self)@.stakes, stake.stake_id.0, i) && final(self)@.stakes
                    == old(self)@.stakes.update(i, stake@),
            r is Err ==> r == Result::<(), StakeError>::Err(StakeError::StakeNotFound)
                && final(self)@ == old(self)@,
            final(self)@.next_id == old(self)@.next_id,
            final(self)@.stakes.len() == old(self)@.stakes.len(),
    {
        let ghost m = old(self)@.stakes;
        let mut i: usize = 0;
        while i < self.stakes.len()
            invariant
                0 <= i <= self.stakes@.len(),
                *self == *old(self),
                m == old(self)@.stakes,
                m.len() == self.stakes@.len(),
                forall|j: int| 0 <= j < i ==> m[j].id != stake.stake_id.0,
            decreases self.stakes@.len() - i,
        {
            if self.stakes[i].stake_id == stake.stake_id {
                let ghost k = i as int;
                self.stakes[i] = stake;
                proof {
                    assert(first_match_at(m, stake.stake_id.0, k));
                    assert(final(self)@.stakes =~= old(self)@.stakes.update(k, stake@));
                }
                return Ok(());
            }
            i = i + 1;
        }
        Err(StakeError::StakeNotFound)
    }

    /// Checks out the first stake carrying `id`, marks the copy complete
    /// and commits it back in place.
    pub(crate) fn mark_complete_by_id(&mut self, id: &StakeId) -> (r: Result<(), StakeError>)
        ensures
            r is Ok <==> has_id(old(self)@.stakes, id.0),
            r is Ok ==> exists|i: int|
                {
                    &&& first_match_at(old(self)@.stakes, id.0, i)
                    &&& final(self)@.stakes == old(self)@.stakes.update(
                        i,
                        final(self)@.stakes[i],
                    )
                    &&& marked_complete(old(self)@.stakes[i], final(self)@.stakes[i])
                },
            r is Err ==> r == Result::<(), StakeError>::Err(StakeError::StakeNotFound)
                && final(self)@ == old(self)@,
            final(self)@.next_id == old(self)@.next_id,
            final(self)@.stakes.len() == old(self)@.stakes.len(),
    {
        let found = match self.get_by_id(id) {
            Some(s) => s.clone(),
            None => {
                return Err(StakeError::StakeNotFound);
            },
        };
        let ghost i = choose|i: int| first_match_at(old(self)@.stakes, id.0, i) && found@ == old(
            self,
        )@.stakes[i];
        let mut updated = found;
        updated.mark_complete();
        let r = self.update_stake(updated);
        proof {
            assert(r is Ok);
            let j = choose|j: int|
                first_match_at(old(self)@.stakes, id.0, j) && final(self)@.stakes == old(
                    self,
                )@.stakes.update(j, updated@);
            assert(j == i);
        }
        r
    }

    /// Checks out the first stake carrying `id`, marks the copy dropped
    /// and commits it back in place.
    pub(crate) fn mark_dropped_by_id(&mut self, id: &StakeId) -> (r: Result<(), StakeError>)
        ensures
            r is Ok <==> has_id(old(self)@.stakes, id.0),
            r is Ok ==> exists|i: int|
                {
                    &&& first_match_at(old(self)@.stakes, id.0, i)
                    &&& final(self)@.stakes == old(self)@.stakes.update(
                        i,
                        final(self)@.stakes[i],
                    )
                    &&& marked_dropped(old(self)@.stakes[i], final(self)@.stakes[i])
                },
            r is Err ==> r == Result::<(), StakeError>::Err(StakeError::StakeNotFound)
                && final(self)@ == old(self)@,
            final(self)@.next_id == old(self)@.next_id,
            final(self)@.stakes.len() == old(self)@.stakes.len(),
    {
        let found = match self.get_by_id(id) {
            Some(s) => s.clone(),
            None => {
                return Err(StakeError::StakeNotFound);
            },
        };
        let ghost i = choose|i: int| first_match_at(old(self)@.stakes, id.0, i) && found@ == old(
            self,
        )@.stakes[i];
        let mut updated = found;
        updated.mark_dropped();
        let r = self.update_stake(updated);
        proof {
            assert(r is Ok);
            let j = choose|j: int|
                first_match_at(old(self)@.stakes, id.0, j) && final(self)@.stakes == old(
                    self,
                )@.stakes.update(j, updated@);
            assert(j == i);
        }
        r
    }

    /// All stakes that are neither completed nor dropped, in collection
    /// order.
    pub fn active_stakes(&self) -> (r: Vec<&Stake>)
        ensures
            views_of(r@) == active_of(self@.stakes),
    {
        let ghost m = self@.stakes;
        let mut r: Vec<&Stake> = Vec::new();
        let mut i: usize = 0;
        while i < self.stakes.len()
            invariant
                0 <= i <= self.stakes@.len(),
                m == self@.stakes,
                m.len() == self.stakes@.len(),
                views_of(r@) == active_of(m.take(i as int)),
            decreases self.stakes@.len() - i,
        {
            let s = &self.stakes[i];
            proof {
                m.lemma_take_succ_push(i as int);
                m.take(i as int).lemma_filter_push(m[i as int], |mm: StakeModel| mm.active());
                assert(m[i as int] == s@);
            }
            if s.is_active() {
                let ghost old_r = r@;
                r.push(s);
                proof {
                    assert(views_of(r@) =~= views_of(old_r).push(s@));
                }
            }
            i = i + 1;
        }
        proof {
            assert(m.take(m.len() as int) =~= m);
        }
        r
    }

    /// All stakes marked complete, in collection order; stakes that are
    /// both completed and dropped are included.
    pub fn completed_stakes(&self) -> (r: Vec<&Stake>)
        ensures
            views_of(r@) == completed_of(self@.stakes),
    {
        let ghost m = self@.stakes;
        let mut r: Vec<&Stake> = Vec::new();
        let mut i: usize = 0;
        while i < self.stakes.len()
            invariant
                0 <= i <= self.stakes@.len(),
                m == self@.stakes,
                m.len() == self.stakes@.len(),
                views_of(r@) == completed_of(m.take(i as int)),
            decreases self.stakes@.len() - i,
        {
            let s = &self.stakes[i];
            proof {
                m.lemma_take_succ_push(i as int);
                m.take(i as int).lemma_filter_push(m[i as int], |mm: StakeModel| mm.complete);
                assert(m[i as int] == s@);
            }
            if s.complete {
                let ghost old_r = r@;
                r.push(s);
                proof {
                    assert(views_of(r@) =~= views_of(old_r).push(s@));
                }
            }
            i = i + 1;
        }
        proof {
            assert(m.take(m.len() as int) =~= m);
        }
        r
    }

    /// All stakes whose parent is `parent_id`, in collection order; empty
    /// for an unknown or childless id.
    pub fn get_children(&self, parent_id: &StakeId) -> (r: Vec<&Stake>)
        ensures
            views_of(r@) == children_of(self@.stakes, parent_id.0),
    {
        let ghost m = self@.stakes;
        let mut r: Vec<&Stake> = Vec::new();
        let mut i: usize = 0;
        while i < self.stakes.len()
            invariant
                0 <= i <= self.stakes@.len(),
                m == self@.stakes,
                m.len() == self.stakes@.len(),
                views_of(r@) == children_of(m.take(i as int), parent_id.0),
            decreases self.stakes@.len() - i,
        {
            let s = &self.stakes[i];
            proof {
                m.lemma_take_succ_push(i as int);
                m.take(i as int).lemma_filter_push(m[i as int], parent_pred(parent_id.0));
                assert(m[i as int] == s@);
            }
            let is_child = match &s.parent_id {
                Some(p) => p.0 == parent_id.0,
                None => false,
            };
            proof {
                assert(is_child == parent_pred(parent_id.0)(s@));
            }
            if is_child {
                let ghost old_r = r@;
                r.push(s);
                proof {
                    assert(views_of(r@) =~= views_of(old_r).push(s@));
                }
            }
            i = i + 1;
        }
        proof {
            assert(m.take(m.len() as int) =~= m);
        }
        r
    }

    /// Case-insensitive substring search against the stakes' names, after
    /// trimming leading and trailing whitespace from the query.  A query
    /// that is empty after trimming selects every stake.
    pub fn search_by_name<'a>(&'a self, query: &str) -> (r: Vec<&'a Stake>)
        ensures
            spec_trim(query@).len() == 0 ==> views_of(r@) == self@.stakes,
            spec_trim(query@).len() > 0 ==> views_of(r@) == matching_of(
                self@.stakes,
                lower_of(spec_trim(query@)),
            ),
    {
        let ghost m = self@.stakes;
        let qc = chars_of(query);
        let tq = trim_chars(&qc);
        let mut r: Vec<&Stake> = Vec::new();
        if tq.len() == 0 {
            let mut i: usize = 0;
            while i < self.stakes.len()
                invariant
                    0 <= i <= self.stakes@.len(),
                    m == self@.stakes,
                    m.len() == self.stakes@.len(),
                    views_of(r@) == m.take(i as int),
                decreases self.stakes@.len() - i,
            {
                let ghost old_r = r@;
                r.push(&self.stakes[i]);
                proof {
                    m.lemma_take_succ_push(i as int);
                    assert(views_of(r@) =~= views_of(old_r).push(m[i as int]));
                }
                i = i + 1;
            }
            proof {
                assert(m.take(m.len() as int) =~= m);
            }
            return r;
        }
        let ts = string_from_chars(&tq);
        let lq = lowercase(ts.as_str());
        let lqv = chars_of(lq.as_str());
        let ghost q = lower_of(spec_trim(query@));
        proof {
            assert(lqv@ == q);
        }
        let mut i: usize = 0;
        while i < self.stakes.len()
            invariant
                0 <= i <= self.stakes@.len(),
                m == self@.stakes,
                m.len() == self.stakes@.len(),
                lqv@ == q,
                views_of(r@) == matching_of(m.take(i as int), q),
            decreases self.stakes@.len() - i,
        {
            let s = &self.stakes[i];
            proof {
                m.lemma_take_succ_push(i as int);
                m.take(i as int).lemma_filter_push(m[i as int], name_match_pred(q));
                assert(m[i as int] == s@);
            }
            let ln = lowercase(s.stake_name.as_str());
            let lnv = chars_of(ln.as_str());
            if contains_sub(&lnv, &lqv) {
                let ghost old_r = r@;
                r.push(s);
                proof {
                    assert(name_match_pred(q)(s@));
                    assert(views_of(r@) =~= views_of(old_r).push(s@));
                }
            } else {
                proof {
                    assert(!name_match_pred(q)(s@));
                }
            }
            i = i + 1;
        }
        proof {
            assert(m.take(m.len() as int) =~= m);
        }
        r
    }
    /// The collection's wire text: the closed two-field document holding
    /// the counter and every stake, in order.
    pub fn encode(&self) -> (r: String)
        requires
            self@.wf(),
        ensures
            r@ == enc_doc(self@.next_id, self@.stakes),
    {
        proof {
            assert(stakes_wf(self@.stakes));
        }
        let chars = crate::codec::encode_doc(self.next_id.0, &self.stakes);
        crate::text::string_from_chars(&chars)
    }

    /// Rebuilds a collection from its wire text.  Succeeds exactly on
    /// texts that `p_doc` accepts: the closed two-field document, each
    /// field present once, nothing after it.
    pub fn decode(text: &str) -> (r: Result<StakesCollection, DecodeError>)
        ensures
            r is Ok <==> p_doc(text@) is Some,
            r matches Ok(c) ==> p_doc(text@) == Some((c@.next_id, c@.stakes)) && c@.wf(),
    {
        let chars = crate::text::chars_of(text);
        match crate::codec::parse_doc(&chars) {
            Some((next_id, stakes)) => {
                let c = StakesCollection { stakes, next_id: StakeId(next_id) };
                proof {
                    assert(c@.stakes =~= crate::codec::stake_views(c.stakes@));
                    lemma_p_doc_wf(text@);
                }
                Ok(c)
            },
            None => Err(DecodeError::InvalidDocument),
        }
    }
}

/// Law: the wire form round-trips exactly.  For every well-formed
/// collection value, parsing its encoded document yields the same counter
/// and the same stakes, every field included.
pub proof fn lemma_encode_decode_round_trip(c: CollectionModel)
    requires
        c.wf(),
    ensures
        p_doc(enc_doc(c.next_id, c.stakes)) == Some((c.next_id, c.stakes)),
{
    assert(stakes_wf(c.stakes));
    lemma_doc_round_trip(c.next_id, c.stakes);
}

/// Law: re-encoding a decoded document reproduces an equivalent document.
/// Whatever text a collection was decoded from, the text it encodes to
/// parses to the very same counter and stakes — the wire form is a
/// structural, not textual, round trip in both directions.
pub proof fn lemma_decode_encode_equivalent(text: Seq<char>, next_id: u32, stakes: Seq<StakeModel>)
    requires
        p_doc(text) == Some((next_id, stakes)),
    ensures
        p_doc(enc_doc(next_id, stakes)) == p_doc(text),
{
    lemma_p_doc_wf(text);
    lemma_doc_round_trip(next_id, stakes);
}

/// The ids a run of `n` issuances hands out, starting from counter
/// `start`: consecutive values, most recent last.
pub open spec fn ids_issued(start: u32, n: nat) -> Seq<u32> {
    Seq::new(n, |k: int| (start + k) as u32)
}

/// Law: id issuance is strictly increasing and never repeats.  Each call
/// to `generate_id` returns the counter and advances it by one (its
/// contract), so a run of `n` calls from counter `start` returns exactly
/// `start, start + 1, …`, pairwise distinct, and leaves the counter at
/// `start + n`.
pub proof fn lemma_id_issuance(start: u32, n: nat)
    requires
        start + n <= u32::MAX,
    ensures
        ids_issued(start, n).len() == n,
        forall|k: int| 0 <= k < n ==> ids_issued(start, n)[k] == start + k,
        forall|a: int, b: int|
            0 <= a < b < n ==> ids_issued(start, n)[a] < ids_issued(start, n)[b],
{
}

/// Law: the active and the completed stakes partition by the flags.  An
/// active stake never shows among the completed ones (unless its
/// `complete` flag is set); a stake that is both completed and dropped
/// shows among the completed stakes and never among the active ones.
pub proof fn lemma_active_completed_partition(s: Seq<StakeModel>)
    ensures
        forall|j: int| 0 <= j < active_of(s).len() ==> (#[trigger] active_of(s)[j]).active(),
        forall|j: int| 0 <= j < completed_of(s).len() ==> (#[trigger] completed_of(s)[j]).complete,
        forall|m: StakeModel| !m.complete ==> !completed_of(s).contains(m),
        forall|m: StakeModel| m.complete || m.dropped ==> !active_of(s).contains(m),
        forall|i: int|
            0 <= i < s.len() && (#[trigger] s[i]).complete ==> completed_of(s).contains(s[i]),
        forall|i: int|
            0 <= i < s.len() && (#[trigger] s[i]).active() ==> active_of(s).contains(s[i]),
{
    assert forall|m: StakeModel| !m.complete implies !completed_of(s).contains(m) by {
        if completed_of(s).contains(m) {
            let j = choose|j: int| 0 <= j < completed_of(s).len() && completed_of(s)[j] == m;
            assert(completed_of(s)[j].complete);
        }
    }
    assert forall|m: StakeModel| m.complete || m.dropped implies !active_of(s).contains(m) by {
        if active_of(s).contains(m) {
            let j = choose|j: int| 0 <= j < active_of(s).len() && active_of(s)[j] == m;
            assert(active_of(s)[j].active());
        }
    }
}

/// Two first matches of the same id stand at the same position.
pub proof fn lemma_first_match_unique(s: Seq<StakeModel>, id: u32, i: int, j: int)
    requires
        first_match_at(s, id, i),
        first_match_at(s, id, j),
    ensures
        i == j,
{
    if i < j {
        assert(s[i].id != id);
    } else if j < i {
        assert(s[j].id != id);
    }
}

/// Law: committing a stake over the first match of its id leaves the
/// length unchanged, and the next lookup of that id finds exactly the
/// committed value, at the same position.
pub proof fn lemma_update_round_trip(s: Seq<StakeModel>, m: StakeModel, i: int)
    requires
        first_match_at(s, m.id, i),
    ensures
        s.update(i, m).len() == s.len(),
        first_match_at(s.update(i, m), m.id, i),
        s.update(i, m)[i] == m,
{
    assert forall|j: int| 0 <= j < i implies s.update(i, m)[j].id != m.id by {
        assert(s.update(i, m)[j] == s[j]);
    }
}

/// Law: the children of `p` are exactly the stakes whose parent is `p`,
/// kept in collection order (`children_of` filters the stored order), and
/// there are none for an id without children.
pub proof fn lemma_children_exactly(s: Seq<StakeModel>, p: u32)
    ensures
        forall|j: int|
            0 <= j < children_of(s, p).len() ==> (#[trigger] children_of(s, p)[j]).parent == Some(
                p,
            ),
        forall|i: int|
            0 <= i < s.len() && (#[trigger] s[i]).parent == Some(p) ==> children_of(
                s,
                p,
            ).contains(s[i]),
        forall|m: StakeModel| m.parent != Some(p) ==> !children_of(s, p).contains(m),
        (forall|i: int| 0 <= i < s.len() ==> (#[trigger] s[i]).parent != Some(p)) ==> children_of(
            s,
            p,
        ).len() == 0,
{
    assert forall|m: StakeModel| m.parent != Some(p) implies !children_of(s, p).contains(m) by {
        if children_of(s, p).contains(m) {
            let j = choose|j: int|
                0 <= j < children_of(s, p).len() && children_of(s, p)[j] == m;
            assert(parent_pred(p)(children_of(s, p)[j]));
        }
    }
    if forall|i: int| 0 <= i < s.len() ==> (#[trigger] s[i]).parent != Some(p) {
        assert(s.all(|m: StakeModel| !parent_pred(p)(m))) by {
            reveal(Seq::all);
        }
        s.lemma_all_neg_filter_empty(parent_pred(p));
    }
}

} // verus!
