//! Transitions between tokens and the nodes that group them by source.

use crate::engine::model::banned_dictionary::BannedDictionary;
use crate::engine::model::banned_dictionary::BannedDictionaryView;
use crate::engine::model::database::put_all;
use crate::engine::model::database::refuses_node;
use crate::engine::model::database::stores_node;
use crate::engine::model::database::Database;
use crate::engine::model::database::DatabaseView;
use crate::engine::model::database::Direction;
use crate::engine::model::error::EngineError;
use std::collections::HashMap;
use std::time::UNIX_EPOCH;
use vstd::prelude::*;
use vstd::std_specs::hash::*;
use vstd::std_specs::iter::IteratorSpec;

verus! {

/// Transitions last observed longer ago than this many seconds are discarded
/// when a node is loaded: approximately one year.
pub const MAX_TRANSITION_AGE: i64 = 31536000;

/// A node with more transitions than this is decimated before it is stored.
pub const DECIMATION_THRESHOLD: usize = 100;

/// The divisor by which decimation scales every occurrence count.
pub const DECIMATION_FACTOR: u32 = 3;

/// Calls `SystemTime::elapsed` on the Unix epoch: the seconds that the
/// system clock counts since then. Nothing is claimed of the value: the
/// clock may stand anywhere, and a clock set before the epoch reads as
/// zero.
#[verifier::external_body]
pub(crate) fn get_current_time() -> i64 {
    match UNIX_EPOCH.elapsed() {
        Ok(elapsed) => elapsed.as_secs() as i64,
        Err(_) => 0,
    }
}

/// An occurrence count after one more observation: counts stop at the
/// largest representable value rather than wrap.
pub open spec fn bumped(occurrences: u32) -> u32 {
    if occurrences < u32::MAX {
        (occurrences + 1) as u32
    } else {
        occurrences
    }
}

/// How often one token followed another, and when that was last seen.
#[derive(Clone, Copy, Debug, PartialEq, Eq, Structural)]
pub struct Transition {
    pub occurrences: u32,
    pub last_observed: i64,
}

impl Transition {
    pub fn new(occurrences: u32, last_observed: i64) -> (t: Transition)
        ensures
            t == (Transition { occurrences, last_observed }),
    {
        Transition { occurrences, last_observed }
    }

    /// The transition after one more observation at time `now`.
    pub open spec fn observed(self, now: i64) -> Transition {
        Transition { occurrences: bumped(self.occurrences), last_observed: now }
    }

    /// Counts one more observation at the given time.
    pub fn increment_at(&mut self, now: i64) -> (r: u32)
        ensures
            *final(self) == old(self).observed(now),
            r == final(self).occurrences,
    {
        if self.occurrences < u32::MAX {
            self.occurrences = self.occurrences + 1;
        }
        self.last_observed = now;
        self.occurrences
    }

    /// Counts one more observation at the time the system clock shows. The
    /// time recorded is whatever the clock returned.
    pub fn increment(&mut self) -> (r: u32)
        ensures
            final(self).occurrences == bumped(old(self).occurrences),
            r == final(self).occurrences,
    {
        let now = get_current_time();
        self.increment_at(now)
    }

    pub fn get_occurrences(&self) -> (r: &u32)
        ensures
            *r == self.occurrences,
    {
        &self.occurrences
    }

    pub fn get_last_observed(&self) -> (r: &i64)
        ensures
            *r == self.last_observed,
    {
        &self.last_observed
    }

    /// Whether the transition is older than `MAX_TRANSITION_AGE` at `now`.
    pub open spec fn expired(self, now: i64) -> bool {
        now - self.last_observed > MAX_TRANSITION_AGE
    }

    pub fn is_expired(&self, now: i64) -> (b: bool)
        ensures
            b == self.expired(now),
    {
        if self.last_observed >= 0 {
            now > MAX_TRANSITION_AGE && now - MAX_TRANSITION_AGE > self.last_observed
        } else {
            now > MAX_TRANSITION_AGE + self.last_observed
        }
    }
}

/// A transition map after one more observation of `target` at time `now`.
pub open spec fn recorded(
    transitions: Map<i32, Transition>,
    target: i32,
    now: i64,
) -> Map<i32, Transition> {
    if transitions.contains_key(target) {
        transitions.insert(target, transitions[target].observed(now))
    } else {
        transitions.insert(target, Transition { occurrences: 1, last_observed: now })
    }
}

/// One transition scaled down by the decimation factor.
pub open spec fn scaled_transition(t: Transition) -> Transition {
    Transition { occurrences: t.occurrences / DECIMATION_FACTOR, last_observed: t.last_observed }
}

/// Every transition scaled down by the decimation factor; those that reach
/// zero are gone.
pub open spec fn scaled(transitions: Map<i32, Transition>) -> Map<i32, Transition> {
    Map::new(
        |k: i32| transitions.contains_key(k) && transitions[k].occurrences / DECIMATION_FACTOR > 0,
        |k: i32| scaled_transition(transitions[k]),
    )
}

/// What decimation leaves of a transition map: a map within the threshold
/// is kept as it is, a larger one is scaled.
pub open spec fn decimated(transitions: Map<i32, Transition>) -> Map<i32, Transition> {
    if transitions.len() > DECIMATION_THRESHOLD {
        scaled(transitions)
    } else {
        transitions
    }
}

/// The transition that a stored triple of target, occurrences and time of
/// last observation stands for.
pub open spec fn triple_transition(triple: (i32, u32, i64)) -> Transition {
    Transition { occurrences: triple.1, last_observed: triple.2 }
}

/// The transition map that a sequence of stored triples stands for. Where a
/// target occurs twice, the later triple counts.
pub open spec fn node_of(triples: Seq<(i32, u32, i64)>) -> Map<i32, Transition>
    decreases triples.len(),
{
    if triples.len() == 0 {
        Map::empty()
    } else {
        node_of(triples.drop_last()).insert(triples.last().0, triple_transition(triples.last()))
    }
}

/// Whether `triples` lists the transitions of `transitions`: each exactly
/// once, in any order.
pub open spec fn lists(triples: Seq<(i32, u32, i64)>, transitions: Map<i32, Transition>) -> bool {
    &&& triples.len() == transitions.len()
    &&& forall|i: int|
        0 <= i < triples.len() ==> transitions.contains_key(#[trigger] triples[i].0)
            && transitions[triples[i].0] == triple_transition(triples[i])
    &&& forall|i: int, j: int|
        0 <= i < j < triples.len() ==> #[trigger] triples[i].0 != #[trigger] triples[j].0
    &&& forall|k: i32| #[trigger]
        transitions.contains_key(k) ==> exists|i: int|
            0 <= i < triples.len() && #[trigger] triples[i].0 == k
}

/// A listing of a map stands for that map again.
pub proof fn lemma_listing_restores(triples: Seq<(i32, u32, i64)>, transitions: Map<i32, Transition>)
    requires
        lists(triples, transitions),
    ensures
        node_of(triples) == transitions,
{
    lemma_node_of(triples);
    assert forall|k: i32| transitions.contains_key(k) implies node_of(triples).contains_key(k)
        && node_of(triples)[k] == transitions[k] by {
        let i = choose|i: int| 0 <= i < triples.len() && #[trigger] triples[i].0 == k;
        assert(node_of(triples).contains_key(k));
        let j = choose|j: int|
            0 <= j < triples.len() && #[trigger] triples[j].0 == k && node_of(triples)[k]
                == triple_transition(triples[j]);
        assert(triples[j].0 == triples[i].0);
        assert(i == j);
    }
    assert forall|k: i32| node_of(triples).contains_key(k) implies transitions.contains_key(k) by {
        let j = choose|j: int| 0 <= j < triples.len() && #[trigger] triples[j].0 == k;
    }
    assert(node_of(triples) =~= transitions);
}

/// What `node_of` holds: exactly the targets that occur, each with the
/// transition of some triple that names it.
pub proof fn lemma_node_of(triples: Seq<(i32, u32, i64)>)
    ensures
        node_of(triples).dom().finite(),
        forall|k: i32| #[trigger]
            node_of(triples).contains_key(k) <==> exists|j: int|
                0 <= j < triples.len() && #[trigger] triples[j].0 == k,
        forall|k: i32| #[trigger]
            node_of(triples).contains_key(k) ==> exists|j: int|
                0 <= j < triples.len() && #[trigger] triples[j].0 == k && node_of(triples)[k]
                    == triple_transition(triples[j]),
    decreases triples.len(),
{
    if triples.len() > 0 {
        let front = triples.drop_last();
        lemma_node_of(front);
        let last = triples.last();
        assert forall|k: i32| #[trigger] node_of(triples).contains_key(k) implies exists|j: int|
            0 <= j < triples.len() && #[trigger] triples[j].0 == k && node_of(triples)[k]
                == triple_transition(triples[j]) by {
            if k == last.0 {
                assert(triples[triples.len() - 1].0 == k);
            } else {
                let j = choose|j: int|
                    0 <= j < front.len() && #[trigger] front[j].0 == k && node_of(front)[k]
                        == triple_transition(front[j]);
                assert(triples[j] == front[j]);
            }
        }
        assert forall|k: i32|
            (exists|j: int| 0 <= j < triples.len()
                && #[trigger] triples[j].0 == k) implies #[trigger]
            node_of(triples).contains_key(k) by {
            let j = choose|j: int| 0 <= j < triples.len() && #[trigger] triples[j].0 == k;
            if j < front.len() {
                assert(front[j] == triples[j]);
            }
        }
    }
}

/// What is kept of a transition map when it is loaded at time `now`: the
/// transitions that are not too old and do not lead to a banned token.
pub open spec fn kept(
    transitions: Map<i32, Transition>,
    now: i64,
    filter: BannedDictionaryView,
) -> Map<i32, Transition> {
    Map::new(
        |k: i32|
            transitions.contains_key(k) && !transitions[k].expired(now) && !filter.bans_id(k),
        |k: i32| transitions[k],
    )
}

/// The node of `id` as it is loaded from a store at time `now`: what is
/// kept of the stored node, and nothing where none is stored or decodes.
pub open spec fn loaded_node(
    store: DatabaseView,
    direction: Direction,
    id: i32,
    now: i64,
    filter: BannedDictionaryView,
) -> Map<i32, Transition> {
    match store.node(direction, id) {
        Some(transitions) => kept(transitions, now, filter),
        None => Map::empty(),
    }
}

/// What is loaded of a node holds no transition that is too old at the
/// time of loading, though the store still holds it, and none to a banned
/// token; what it holds, it holds as it is stored.
pub proof fn lemma_loaded_node(
    store: DatabaseView,
    direction: Direction,
    id: i32,
    now: i64,
    filter: BannedDictionaryView,
    target: i32,
)
    ensures
        loaded_node(store, direction, id, now, filter).contains_key(target) <==> store.node(
            direction,
            id,
        ) is Some && store.node(direction, id)->0.contains_key(target) && !store.node(
            direction,
            id,
        )->0[target].expired(now) && !filter.bans_id(target),
        loaded_node(store, direction, id, now, filter).contains_key(target) ==> loaded_node(
            store,
            direction,
            id,
            now,
            filter,
        )[target] == store.node(direction, id)->0[target],
{
}

/// The sources of `pairs`, each once, in the order in which they first
/// occur.
pub open spec fn sources_of(pairs: Seq<(i32, i32)>) -> Seq<i32>
    decreases pairs.len(),
{
    if pairs.len() == 0 {
        Seq::empty()
    } else {
        let before = sources_of(pairs.drop_last());
        if before.contains(pairs.last().0) {
            before
        } else {
            before.push(pairs.last().0)
        }
    }
}

/// A transition map after the observation at time `now` of every pair that
/// starts at `source`, in their order.
pub open spec fn observed_from(
    transitions: Map<i32, Transition>,
    source: i32,
    pairs: Seq<(i32, i32)>,
    now: i64,
) -> Map<i32, Transition>
    decreases pairs.len(),
{
    if pairs.len() == 0 {
        transitions
    } else {
        let before = observed_from(transitions, source, pairs.drop_last(), now);
        if pairs.last().0 == source {
            recorded(before, pairs.last().1, now)
        } else {
            before
        }
    }
}

/// No source is listed twice, and exactly the sources of the pairs are
/// listed.
pub proof fn lemma_sources_of(pairs: Seq<(i32, i32)>)
    ensures
        sources_of(pairs).no_duplicates(),
        forall|source: i32| #[trigger]
            sources_of(pairs).contains(source) <==> exists|k: int|
                0 <= k < pairs.len() && (#[trigger] pairs[k]).0 == source,
    decreases pairs.len(),
{
    if pairs.len() > 0 {
        let front = pairs.drop_last();
        lemma_sources_of(front);
        let before = sources_of(front);
        let last = pairs.last().0;
        assert forall|source: i32| #[trigger]
            sources_of(pairs).contains(source) <==> exists|k: int|
                0 <= k < pairs.len() && (#[trigger] pairs[k]).0 == source by {
            if sources_of(pairs).contains(source) {
                if before.contains(source) {
                    let k = choose|k: int| 0 <= k < front.len()
                        && (#[trigger] front[k]).0 == source;
                    assert(pairs[k].0 == source);
                } else {
                    let i = choose|i: int|
                        0 <= i < sources_of(pairs).len() && sources_of(pairs)[i] == source;
                    if i < before.len() {
                        assert(before[i] == source);
                    }
                    assert(pairs[pairs.len() - 1].0 == source);
                }
            }
            if exists|k: int| 0 <= k < pairs.len() && (#[trigger] pairs[k]).0 == source {
                let k = choose|k: int| 0 <= k < pairs.len() && (#[trigger] pairs[k]).0 == source;
                if k < front.len() {
                    assert(front[k].0 == source);
                    assert(before.contains(source));
                    let i = choose|i: int| 0 <= i < before.len() && before[i] == source;
                    assert(sources_of(pairs)[i] == source);
                } else if before.contains(source) {
                    let i = choose|i: int| 0 <= i < before.len() && before[i] == source;
                    assert(sources_of(pairs)[i] == source);
                } else {
                    assert(sources_of(pairs)[before.len() as int] == source);
                }
            }
        }
    }
}

/// The node that is stored for `source` after `pairs` were observed at time
/// `now`: the loaded node with the observations, decimated.
pub open spec fn node_after(
    store: DatabaseView,
    direction: Direction,
    source: i32,
    pairs: Seq<(i32, i32)>,
    now: i64,
    filter: BannedDictionaryView,
) -> Map<i32, Transition> {
    decimated(observed_from(loaded_node(store, direction, source, now, filter), source, pairs, now))
}

/// Whether a store may refuse the observation of `pairs`: it may refuse
/// the node of one of their sources as it would be stored.
pub open spec fn observation_refused(
    store: DatabaseView,
    direction: Direction,
    pairs: Seq<(i32, i32)>,
    now: i64,
    filter: BannedDictionaryView,
) -> bool {
    exists|k: int|
        0 <= k < sources_of(pairs).len() && refuses_node(
            store,
            #[trigger] sources_of(pairs)[k],
            node_after(store, direction, sources_of(pairs)[k], pairs, now, filter),
        )
}

/// Decimation of a node over the threshold divides every occurrence count
/// by the decimation factor, rounding toward zero, drops exactly the
/// transitions whose count reaches zero, keeps the times of last
/// observation, and never leaves more transitions than there were.
pub proof fn lemma_decimation(transitions: Map<i32, Transition>)
    requires
        transitions.dom().finite(),
        transitions.len() > DECIMATION_THRESHOLD,
    ensures
        forall|k: i32| #[trigger]
            decimated(transitions).contains_key(k) <==> transitions.contains_key(k)
                && transitions[k].occurrences / DECIMATION_FACTOR > 0,
        forall|k: i32| #[trigger]
            decimated(transitions).contains_key(k) ==> decimated(transitions)[k].occurrences
                == transitions[k].occurrences / DECIMATION_FACTOR && decimated(
                transitions,
            )[k].last_observed == transitions[k].last_observed,
        decimated(transitions).dom().finite(),
        decimated(transitions).len() <= transitions.len(),
{
    assert(decimated(transitions).dom().subset_of(transitions.dom()));
    vstd::set_lib::lemma_len_subset(decimated(transitions).dom(), transitions.dom());
}

/// A node within the threshold is left as it is by decimation.
pub proof fn lemma_decimation_spares_small(transitions: Map<i32, Transition>)
    requires
        transitions.len() <= DECIMATION_THRESHOLD,
    ensures
        decimated(transitions) == transitions,
{
}

/// All transitions that leave one token, keyed by the token they lead to.
pub struct Node {
    transitions: HashMap<i32, Transition>,
}

impl View for Node {
    type V = Map<i32, Transition>;

    closed spec fn view(&self) -> Map<i32, Transition> {
        self.transitions@
    }
}

impl Clone for Node {
    fn clone(&self) -> (copy: Node)
        ensures
            copy@ == self@,
    {
        let triples = self.triples();
        proof {
            lemma_listing_restores(triples@, self@);
        }
        Node::from_triples(&triples)
    }
}

impl Node {
    pub fn new(transitions: HashMap<i32, Transition>) -> (n: Node)
        ensures
            n@ == transitions@,
    {
        Node { transitions }
    }

    /// A node without transitions.
    pub fn empty() -> (n: Node)
        ensures
            n@ == Map::<i32, Transition>::empty(),
    {
        Node { transitions: HashMap::new() }
    }

    pub fn len(&self) -> (n: usize)
        ensures
            n == self@.len(),
            self@.dom().finite(),
    {
        broadcast use group_hash_axioms;
        self.transitions.len()
    }

    pub fn is_empty(&self) -> (b: bool)
        ensures
            b == (self@.len() == 0),
            b == (self@ == Map::<i32, Transition>::empty()),
            self@.dom().finite(),
    {
        broadcast use group_hash_axioms;
        let n = self.transitions.len();
        proof {
            if n == 0 {
                assert(self@.dom() =~= Set::<i32>::empty());
                assert(self@ =~= Map::<i32, Transition>::empty());
            }
        }
        n == 0
    }

    /// The transition to `dictionary_id`, if the node has one.
    pub fn get(&self, dictionary_id: i32) -> (r: Option<Transition>)
        ensures
            r == (if self@.contains_key(dictionary_id) {
                Some(self@[dictionary_id])
            } else {
                None
            }),
    {
        broadcast use group_hash_axioms;
        match self.transitions.get(&dictionary_id) {
            Some(t) => Some(*t),
            None => None,
        }
    }

    /// Records one more observation of the transition to `dictionary_id` at
    /// the given time, creating it with one occurrence if it is new.
    pub fn increment_transition_at(&mut self, dictionary_id: &i32, now: i64) -> (r: u32)
        ensures
            final(self)@ == recorded(old(self)@, *dictionary_id, now),
            r == final(self)@[*dictionary_id].occurrences,
    {
        broadcast use group_hash_axioms;
        let next = match self.transitions.get(dictionary_id) {
            Some(t) => {
                let mut t = *t;
                t.increment_at(now);
                t
            },
            None => Transition::new(1, now),
        };
        self.transitions.insert(*dictionary_id, next);
        next.occurrences
    }

    /// Records one more observation of the transition to `dictionary_id` at
    /// the time the system clock shows.
    pub fn increment_transition(&mut self, dictionary_id: &i32) -> (r: u32)
        ensures
            exists|now: i64| final(self)@ == recorded(old(self)@, *dictionary_id, now),
            r == final(self)@[*dictionary_id].occurrences,
    {
        let now = get_current_time();
        self.increment_transition_at(dictionary_id, now)
    }

    /// Removes the transition to `dictionary_id`, if there is one.
    pub fn remove_transition(&mut self, dictionary_id: i32)
        ensures
            final(self)@ == old(self)@.remove(dictionary_id),
    {
        broadcast use group_hash_axioms;
        self.transitions.remove(&dictionary_id);
    }

    /// Bounds the node: when it holds more transitions than the threshold,
    /// every occurrence count is divided by the decimation factor and the
    /// transitions that reach zero are dropped.
    pub fn decimate(&mut self)
        ensures
            final(self)@ == decimated(old(self)@),
    {
        broadcast use group_hash_axioms;
        if self.transitions.len() > DECIMATION_THRESHOLD {
            let mut kept: HashMap<i32, Transition> = HashMap::new();
            let ghost before = self.transitions@;
            let ghost all = spec_hash_map_iter(&self.transitions).remaining();
            let ghost mut seen: int = 0;
            for entry in it: self.transitions.iter()
                invariant
                    it.seq() == all,
                    seen == it.index(),
                    before == self.transitions@,
                    all == spec_hash_map_iter(&self.transitions).remaining(),
                    forall|k: i32| #[trigger]
                        kept@.contains_key(k) ==> scaled(before).contains_key(k) && kept@[k]
                            == scaled(before)[k],
                    forall|j: int|
                        0 <= j < seen && scaled(before).contains_key(*all[j].0)
                            ==> kept@.contains_key(*all[j].0),
            {
                proof {
                    seen = seen + 1;
                }
                let (target, transition) = entry;
                assert(before.contains_key(*target) && before[*target] == *transition);
                let occurrences: u32 = transition.occurrences / DECIMATION_FACTOR;
                if occurrences > 0 {
                    kept.insert(*target, Transition::new(occurrences, transition.last_observed));
                }
            }
            proof {
                assert forall|k: i32| scaled(before).contains_key(k) implies kept@.contains_key(
                    k,
                ) by {
                    assert(all.contains((&k, &before[k])));
                    let j = choose|j: int| 0 <= j < all.len() && all[j] == (&k, &before[k]);
                    assert(*all[j].0 == k);
                }
                assert(kept@ =~= scaled(before));
            }
            self.transitions = kept;
        }
    }

    /// The transitions as triples of target, occurrences and time of last
    /// observation, each once, in no particular order.
    pub fn triples(&self) -> (r: Vec<(i32, u32, i64)>)
        ensures
            lists(r@, self@),
    {
        broadcast use group_hash_axioms;
        let mut out: Vec<(i32, u32, i64)> = Vec::new();
        let ghost all = spec_hash_map_iter(&self.transitions).remaining();
        for entry in it: self.transitions.iter()
            invariant
                it.seq() == all,
                all == spec_hash_map_iter(&self.transitions).remaining(),
                all.no_duplicates(),
                out@.len() == it.index(),
                forall|j: int|
                    0 <= j < out@.len() ==> (#[trigger] out@[j]).0 == *all[j].0 && out@[j].1
                        == all[j].1.occurrences && out@[j].2 == all[j].1.last_observed,
        {
            let (target, transition) = entry;
            out.push((*target, transition.occurrences, transition.last_observed));
        }
        proof {
            let m = self.transitions@;
            assert(out@.len() == all.len());
            assert forall|i: int| 0 <= i < out@.len() implies m.contains_key(
                #[trigger] out@[i].0,
            ) && m[out@[i].0] == triple_transition(out@[i]) by {
                assert(m.contains_key(*all[i].0) && m[*all[i].0] == *all[i].1);
            }
            assert forall|i: int, j: int| 0 <= i < j < out@.len() implies #[trigger] out@[i].0
                != #[trigger] out@[j].0 by {
                assert(m.contains_key(*all[i].0) && m[*all[i].0] == *all[i].1);
                assert(m.contains_key(*all[j].0) && m[*all[j].0] == *all[j].1);
                if out@[i].0 == out@[j].0 {
                    assert(all[i] == all[j]);
                }
            }
            assert forall|k: i32| #[trigger] m.contains_key(k) implies exists|i: int|
                0 <= i < out@.len() && #[trigger] out@[i].0 == k by {
                assert(all.contains((&k, &m[k])));
                let j = choose|j: int| 0 <= j < all.len() && all[j] == (&k, &m[k]);
                assert(out@[j].0 == k);
            }
        }
        out
    }

    /// Discards the transitions that are too old at `now` and those that
    /// lead to a banned token.
    pub fn discard_stale(&mut self, now: i64, banned: &BannedDictionary)
        requires
            banned.wf(),
        ensures
            final(self)@ == kept(old(self)@, now, banned@),
    {
        broadcast use group_hash_axioms;
        let mut fresh: HashMap<i32, Transition> = HashMap::new();
        let ghost before = self.transitions@;
        let ghost all = spec_hash_map_iter(&self.transitions).remaining();
        let ghost mut seen: int = 0;
        for entry in it: self.transitions.iter()
            invariant
                banned.wf(),
                it.seq() == all,
                seen == it.index(),
                before == self.transitions@,
                all == spec_hash_map_iter(&self.transitions).remaining(),
                forall|k: i32| #[trigger]
                    fresh@.contains_key(k) ==> kept(before, now, banned@).contains_key(k)
                        && fresh@[k] == before[k],
                forall|j: int|
                    0 <= j < seen && kept(before, now, banned@).contains_key(*all[j].0)
                        ==> fresh@.contains_key(*all[j].0),
        {
            proof {
                seen = seen + 1;
            }
            let (target, transition) = entry;
            assert(before.contains_key(*target) && before[*target] == *transition);
            if !transition.is_expired(now) && !banned.is_id_banned(*target) {
                fresh.insert(*target, *transition);
            }
        }
        proof {
            assert forall|k: i32| kept(before, now, banned@).contains_key(k) implies fresh@.contains_key(
                k,
            ) by {
                assert(all.contains((&k, &before[k])));
                let j = choose|j: int| 0 <= j < all.len() && all[j] == (&k, &before[k]);
                assert(*all[j].0 == k);
            }
            assert(fresh@ =~= kept(before, now, banned@));
        }
        self.transitions = fresh;
    }

    /// The node that a sequence of stored triples stands for.
    pub fn from_triples(triples: &Vec<(i32, u32, i64)>) -> (n: Node)
        ensures
            n@ == node_of(triples@),
    {
        broadcast use group_hash_axioms;
        let mut transitions: HashMap<i32, Transition> = HashMap::new();
        let mut i: usize = 0;
        while i < triples.len()
            invariant
                i <= triples.len(),
                transitions@ == node_of(triples@.take(i as int)),
            decreases triples.len() - i,
        {
            let (target, occurrences, last_observed) = triples[i];
            transitions.insert(target, Transition::new(occurrences, last_observed));
            proof {
                assert(triples@.take(i + 1).drop_last() == triples@.take(i as int));
            }
            i = i + 1;
        }
        proof {
            assert(triples@.take(triples.len() as int) == triples@);
        }
        Node { transitions }
    }
}

/// The transition graph of one direction.
pub struct Statistics {
    direction: Direction,
}

impl Statistics {
    pub fn new(direction: Direction) -> (statistics: Statistics)
        ensures
            statistics.direction() == direction,
    {
        Statistics { direction }
    }

    /// The direction of the graph.
    pub closed spec fn direction(&self) -> Direction {
        self.direction
    }

    /// The nodes of `ids` as they are loaded at time `now`: without the
    /// transitions that are too old and those that lead to a banned token.
    /// An id without a stored node, or whose blob does not decode, has none.
    pub fn get_nodes(
        &self,
        database: &Database,
        banned: &BannedDictionary,
        ids: &Vec<i32>,
        now: i64,
    ) -> (r: Result<HashMap<i32, Node>, EngineError>)
        requires
            banned.wf(),
        ensures
            r is Ok,
            forall|id: i32| #[trigger]
                r->Ok_0@.contains_key(id) <==> ids@.contains(id) && database@.node(
                    self.direction(),
                    id,
                ) is Some,
            forall|id: i32| #[trigger]
                r->Ok_0@.contains_key(id) ==> r->Ok_0@[id]@ == loaded_node(
                    database@,
                    self.direction(),
                    id,
                    now,
                    banned@,
                ),
    {
        broadcast use group_hash_axioms;
        let mut stored = match database.model_get_transitions(self.direction, ids) {
            Ok(stored) => stored,
            Err(e) => {
                return Err(e);
            },
        };
        let ghost all = stored@;
        let mut nodes: HashMap<i32, Node> = HashMap::new();
        let mut i: usize = 0;
        while i < ids.len()
            invariant
                banned.wf(),
                i <= ids.len(),
                forall|id: i32| #[trigger]
                    all.contains_key(id) <==> ids@.contains(id) && database@.node(
                        self.direction(),
                        id,
                    ) is Some,
                forall|id: i32| #[trigger]
                    all.contains_key(id) ==> all[id]@ == database@.node(self.direction(), id)->0,
                forall|id: i32| #[trigger]
                    stored@.contains_key(id) ==> all.contains_key(id) && stored@[id] == all[id]
                        && !nodes@.contains_key(id),
                forall|id: i32| #[trigger]
                    nodes@.contains_key(id) ==> all.contains_key(id) && nodes@[id]@ == kept(
                        all[id]@,
                        now,
                        banned@,
                    ),
                forall|id: i32|
                    all.contains_key(id) ==> #[trigger] stored@.contains_key(id)
                        || nodes@.contains_key(id),
                forall|k: int|
                    0 <= k < i && all.contains_key(#[trigger] ids@[k]) ==> nodes@.contains_key(
                        ids@[k],
                    ),
            decreases ids.len() - i,
        {
            let id = ids[i];
            match stored.remove(&id) {
                Some(node) => {
                    let mut node = node;
                    node.discard_stale(now, banned);
                    nodes.insert(id, node);
                },
                None => {},
            }
            i = i + 1;
        }
        proof {
            assert forall|id: i32| all.contains_key(id) implies nodes@.contains_key(id) by {
                let k = choose|k: int| 0 <= k < ids@.len() && ids@[k] == id;
                assert(all.contains_key(ids@[k]));
            }
        }
        Ok(nodes)
    }

    /// Bounds `node` before it is stored.
    pub fn decimate(&self, node: &mut Node)
        ensures
            final(node)@ == decimated(old(node)@),
    {
        node.decimate();
    }

    /// Stores `nodes`, each decimated first, in one change of the table: a
    /// node left without transitions has its row deleted. Where the store
    /// refuses, it stays as it was.
    pub fn save_nodes(&self, database: &mut Database, nodes: Vec<(i32, Node)>) -> (r: Result<
        (),
        EngineError,
    >)
        requires
            old(database).wf(),
        ensures
            final(database).wf(),
            r is Err ==> r == Err::<(), EngineError>(EngineError::TransactionFailure)
                && final(database)@ == old(database)@,
            r is Err ==> exists|k: int|
                0 <= k < nodes@.len() && refuses_node(
                    old(database)@,
                    (#[trigger] nodes@[k]).0,
                    decimated(nodes@[k].1@),
                ),
            r is Ok ==> exists|changes: Seq<(i32, Option<Seq<u8>>)>|
                {
                    &&& changes.len() == nodes@.len()
                    &&& forall|k: int|
                        0 <= k < nodes@.len() ==> stores_node(
                            #[trigger] changes[k],
                            nodes@[k].0,
                            decimated(nodes@[k].1@),
                        )
                    &&& final(database)@ == old(database)@.with_table(
                        self.direction(),
                        put_all(old(database)@.table(self.direction()), changes),
                    )
                },
    {
        let mut nodes = nodes;
        let ghost given = nodes@;
        let mut bounded: Vec<(i32, Node)> = Vec::new();
        while nodes.len() > 0
            invariant
                nodes@.len() + bounded@.len() == given.len(),
                forall|k: int|
                    0 <= k < nodes@.len() ==> #[trigger] nodes@[k] == given[k],
                forall|k: int|
                    0 <= k < bounded@.len() ==> (#[trigger] bounded@[k]).0 == given[given.len() - 1
                        - k].0 && bounded@[k].1@ == decimated(given[given.len() - 1 - k].1@),
            decreases nodes@.len(),
        {
            let (id, node) = nodes.pop().unwrap();
            let mut node = node;
            node.decimate();
            bounded.push((id, node));
        }
        let mut ordered: Vec<(i32, Node)> = Vec::new();
        while bounded.len() > 0
            invariant
                ordered@.len() + bounded@.len() == given.len(),
                forall|k: int|
                    0 <= k < bounded@.len() ==> (#[trigger] bounded@[k]).0 == given[given.len() - 1
                        - k].0 && bounded@[k].1@ == decimated(given[given.len() - 1 - k].1@),
                forall|k: int|
                    0 <= k < ordered@.len() ==> (#[trigger] ordered@[k]).0 == given[k].0
                        && ordered@[k].1@ == decimated(given[k].1@),
            decreases bounded@.len(),
        {
            let entry = bounded.pop().unwrap();
            ordered.push(entry);
        }
        let r = database.model_set_transitions(self.direction, &ordered);
        proof {
            if r is Err {
                let k = choose|k: int|
                    0 <= k < ordered@.len() && refuses_node(
                        old(database)@,
                        (#[trigger] ordered@[k]).0,
                        ordered@[k].1@,
                    );
                assert(refuses_node(old(database)@, given[k].0, decimated(given[k].1@)));
            }
            if r is Ok {
                let changes = choose|changes: Seq<(i32, Option<Seq<u8>>)>|
                    {
                        &&& changes.len() == ordered@.len()
                        &&& forall|k: int|
                            0 <= k < ordered@.len() ==> stores_node(
                                #[trigger] changes[k],
                                ordered@[k].0,
                                ordered@[k].1@,
                            )
                        &&& database@ == old(database)@.with_table(
                            self.direction(),
                            put_all(old(database)@.table(self.direction()), changes),
                        )
                    };
                assert forall|k: int| 0 <= k < given.len() implies stores_node(
                    #[trigger] changes[k],
                    given[k].0,
                    decimated(given[k].1@),
                ) by {
                    assert(stores_node(changes[k], ordered@[k].0, ordered@[k].1@));
                }
            }
        }
        r
    }

    /// The sources of `pairs`, each once.
    fn sources(pairs: &Vec<(i32, i32)>) -> (sources: Vec<i32>)
        ensures
            sources@ == sources_of(pairs@),
    {
        let mut sources: Vec<i32> = Vec::new();
        let mut i: usize = 0;
        proof {
            assert(pairs@.take(0) =~= Seq::empty());
        }
        while i < pairs.len()
            invariant
                i <= pairs.len(),
                sources@ == sources_of(pairs@.take(i as int)),
            decreases pairs.len() - i,
        {
            let source = pairs[i].0;
            let mut found = false;
            let mut j: usize = 0;
            while j < sources.len()
                invariant
                    j <= sources.len(),
                    found == sources@.take(j as int).contains(source),
                decreases sources.len() - j,
            {
                proof {
                    assert(sources@.take(j + 1) =~= sources@.take(j as int).push(sources@[j as int]));
                    if sources@.take(j as int).contains(source) {
                        let k = choose|k: int|
                            0 <= k < j && sources@.take(j as int)[k] == source;
                        assert(sources@.take(j + 1)[k] == source);
                    }
                    if sources@[j as int] == source {
                        assert(sources@.take(j + 1)[j as int] == source);
                    }
                }
                if sources[j] == source {
                    found = true;
                }
                j = j + 1;
            }
            proof {
                assert(sources@.take(j as int) =~= sources@);
                assert(pairs@.take(i + 1).drop_last() =~= pairs@.take(i as int));
            }
            if !found {
                sources.push(source);
            }
            i = i + 1;
        }
        proof {
            assert(pairs@.take(i as int) =~= pairs@);
        }
        sources
    }

    /// Observes `pairs` of source and target at time `now`: the node of
    /// each source is loaded, every pair that starts there is recorded in
    /// its order, and the nodes are stored, decimated, in one change of the
    /// table. Where the store refuses, it stays as it was.
    pub fn observe(
        &self,
        database: &mut Database,
        banned: &BannedDictionary,
        pairs: &Vec<(i32, i32)>,
        now: i64,
    ) -> (r: Result<(), EngineError>)
        requires
            old(database).wf(),
            banned.wf(),
        ensures
            final(database).wf(),
            r is Err ==> r == Err::<(), EngineError>(EngineError::TransactionFailure)
                && final(database)@ == old(database)@,
            r is Err ==> observation_refused(
                old(database)@,
                self.direction(),
                pairs@,
                now,
                banned@,
            ),
            r is Ok ==> exists|changes: Seq<(i32, Option<Seq<u8>>)>|
                {
                    &&& changes.len() == sources_of(pairs@).len()
                    &&& forall|k: int|
                        0 <= k < changes.len() ==> stores_node(
                            #[trigger] changes[k],
                            sources_of(pairs@)[k],
                            node_after(
                                old(database)@,
                                self.direction(),
                                sources_of(pairs@)[k],
                                pairs@,
                                now,
                                banned@,
                            ),
                        )
                    &&& final(database)@ == old(database)@.with_table(
                        self.direction(),
                        put_all(old(database)@.table(self.direction()), changes),
                    )
                },
    {
        broadcast use group_hash_axioms;
        let sources = Self::sources(pairs);
        proof {
            lemma_sources_of(pairs@);
        }
        let mut loaded = match self.get_nodes(database, banned, &sources, now) {
            Ok(loaded) => loaded,
            Err(_) => {
                return Err(EngineError::TransactionFailure);
            },
        };
        let ghost all = loaded@;
        let mut nodes: Vec<(i32, Node)> = Vec::new();
        let mut i: usize = 0;
        while i < sources.len()
            invariant
                i <= sources.len(),
                *database == *old(database),
                database.wf(),
                sources@ == sources_of(pairs@),
                sources@.no_duplicates(),
                nodes@.len() == i,
                forall|id: i32| #[trigger]
                    all.contains_key(id) <==> sources@.contains(id) && database@.node(
                        self.direction(),
                        id,
                    ) is Some,
                forall|id: i32| #[trigger]
                    all.contains_key(id) ==> all[id]@ == loaded_node(
                        database@,
                        self.direction(),
                        id,
                        now,
                        banned@,
                    ),
                forall|k: int|
                    i <= k < sources@.len() ==> (loaded@.contains_key(#[trigger] sources@[k])
                        <==> all.contains_key(sources@[k])),
                forall|k: int|
                    i <= k < sources@.len() && all.contains_key(#[trigger] sources@[k])
                        ==> loaded@[sources@[k]] == all[sources@[k]],
                forall|k: int|
                    0 <= k < i ==> (#[trigger] nodes@[k]).0 == sources@[k] && nodes@[k].1@
                        == observed_from(
                        loaded_node(database@, self.direction(), sources@[k], now, banned@),
                        sources@[k],
                        pairs@,
                        now,
                    ),
            decreases sources.len() - i,
        {
            let source = sources[i];
            let ghost start = loaded_node(database@, self.direction(), source, now, banned@);
            let ghost before = loaded@;
            let mut node = match loaded.remove(&source) {
                Some(node) => node,
                None => Node::empty(),
            };
            proof {
                assert(node@ == start);
                assert forall|k: int| i < k < sources@.len() implies (loaded@.contains_key(
                    #[trigger] sources@[k],
                ) <==> all.contains_key(sources@[k])) && (all.contains_key(sources@[k])
                    ==> loaded@[sources@[k]] == all[sources@[k]]) by {
                    assert(sources@[k] != sources@[i as int]);
                    assert(before.contains_key(sources@[k]) <==> all.contains_key(sources@[k]));
                }
                assert(pairs@.take(0) =~= Seq::empty());
            }
            let mut j: usize = 0;
            while j < pairs.len()
                invariant
                    j <= pairs.len(),
                    node@ == observed_from(start, source, pairs@.take(j as int), now),
                decreases pairs.len() - j,
            {
                proof {
                    assert(pairs@.take(j + 1).drop_last() =~= pairs@.take(j as int));
                }
                if pairs[j].0 == source {
                    node.increment_transition_at(&pairs[j].1, now);
                }
                j = j + 1;
            }
            proof {
                assert(pairs@.take(j as int) =~= pairs@);
            }
            nodes.push((source, node));
            i = i + 1;
        }
        let ghost given = nodes@;
        let r = self.save_nodes(database, nodes);
        proof {
            if r is Err {
                let k = choose|k: int|
                    0 <= k < given.len() && refuses_node(
                        old(database)@,
                        (#[trigger] given[k]).0,
                        decimated(given[k].1@),
                    );
                assert(refuses_node(
                    old(database)@,
                    sources_of(pairs@)[k],
                    node_after(
                        old(database)@,
                        self.direction(),
                        sources_of(pairs@)[k],
                        pairs@,
                        now,
                        banned@,
                    ),
                ));
            }
            if r is Ok {
                let changes = choose|changes: Seq<(i32, Option<Seq<u8>>)>|
                    {
                        &&& changes.len() == given.len()
                        &&& forall|k: int|
                            0 <= k < given.len() ==> stores_node(
                                #[trigger] changes[k],
                                given[k].0,
                                decimated(given[k].1@),
                            )
                        &&& database@ == old(database)@.with_table(
                            self.direction(),
                            put_all(old(database)@.table(self.direction()), changes),
                        )
                    };
                assert forall|k: int| 0 <= k < changes.len() implies stores_node(
                    #[trigger] changes[k],
                    sources_of(pairs@)[k],
                    node_after(
                        old(database)@,
                        self.direction(),
                        sources_of(pairs@)[k],
                        pairs@,
                        now,
                        banned@,
                    ),
                ) by {
                    assert(stores_node(changes[k], given[k].0, decimated(given[k].1@)));
                }
            }
        }
        r
    }

    /// Records one observation of the transition from `source_id` to
    /// `target_id` at time `now` and stores the node of `source_id`.
    pub fn record(
        &self,
        database: &mut Database,
        banned: &BannedDictionary,
        source_id: i32,
        target_id: i32,
        now: i64,
    ) -> (r: Result<(), EngineError>)
        requires
            old(database).wf(),
            banned.wf(),
        ensures
            final(database).wf(),
            r is Err ==> r == Err::<(), EngineError>(EngineError::TransactionFailure)
                && final(database)@ == old(database)@,
            r is Err ==> refuses_node(
                old(database)@,
                source_id,
                decimated(
                    recorded(
                        loaded_node(old(database)@, self.direction(), source_id, now, banned@),
                        target_id,
                        now,
                    ),
                ),
            ),
            r is Ok ==> exists|change: (i32, Option<Seq<u8>>)|
                {
                    &&& stores_node(
                        change,
                        source_id,
                        decimated(
                            recorded(
                                loaded_node(
                                    old(database)@,
                                    self.direction(),
                                    source_id,
                                    now,
                                    banned@,
                                ),
                                target_id,
                                now,
                            ),
                        ),
                    )
                    &&& final(database)@ == old(database)@.with_table(
                        self.direction(),
                        crate::engine::model::database::put(
                            old(database)@.table(self.direction()),
                            change,
                        ),
                    )
                },
    {
        let mut pairs: Vec<(i32, i32)> = Vec::new();
        pairs.push((source_id, target_id));
        let r = self.observe(database, banned, &pairs, now);
        proof {
            let one = pairs@;
            assert(one.drop_last() =~= Seq::empty());
            assert(sources_of(one.drop_last()) =~= Seq::empty());
            assert(sources_of(one) =~= seq![source_id]);
            let start = loaded_node(old(database)@, self.direction(), source_id, now, banned@);
            assert(observed_from(start, source_id, one.drop_last(), now) == start);
            assert(observed_from(start, source_id, one, now) == recorded(start, target_id, now));
            if r is Err {
                let k = choose|k: int|
                    0 <= k < sources_of(one).len() && refuses_node(
                        old(database)@,
                        #[trigger] sources_of(one)[k],
                        node_after(
                            old(database)@,
                            self.direction(),
                            sources_of(one)[k],
                            one,
                            now,
                            banned@,
                        ),
                    );
                assert(sources_of(one)[k] == source_id);
            }
            if r is Ok {
                let changes = choose|changes: Seq<(i32, Option<Seq<u8>>)>|
                    {
                        &&& changes.len() == sources_of(one).len()
                        &&& forall|k: int|
                            0 <= k < changes.len() ==> stores_node(
                                #[trigger] changes[k],
                                sources_of(one)[k],
                                node_after(
                                    old(database)@,
                                    self.direction(),
                                    sources_of(one)[k],
                                    one,
                                    now,
                                    banned@,
                                ),
                            )
                        &&& database@ == old(database)@.with_table(
                            self.direction(),
                            put_all(old(database)@.table(self.direction()), changes),
                        )
                    };
                assert(changes.len() == 1);
                assert(changes.drop_last() =~= Seq::empty());
                assert(changes.last() == changes[0]);
                assert(put_all(old(database)@.table(self.direction()), changes.drop_last())
                    == old(database)@.table(self.direction()));
                assert(stores_node(
                    changes[0],
                    source_id,
                    decimated(recorded(start, target_id, now)),
                ));
                assert(put_all(old(database)@.table(self.direction()), changes)
                    == crate::engine::model::database::put(
                    old(database)@.table(self.direction()),
                    changes[0],
                ));
            }
        }
        r
    }
}

} // verus!
