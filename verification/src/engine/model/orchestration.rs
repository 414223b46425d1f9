//! What one context does with its store: learning, banning and its
//! consequences, and generating.

use crate::engine::model::banned_dictionary::BannedDictionary;
use crate::engine::model::banned_dictionary::BannedToken;
use crate::engine::model::banned_dictionary::BannedTokenView;
use crate::engine::model::database::banned_views;
use crate::engine::model::database::lemma_put_all_deleted;
use crate::engine::model::database::scrubbed_rows;
use crate::engine::model::database::with_banned;
use crate::engine::model::database::without_banned;
use crate::engine::model::model::Node;
use crate::engine::model::model::Transition;
use std::collections::HashMap;
use vstd::std_specs::hash::*;
use crate::engine::model::banned_dictionary::BannedDictionaryView;
use crate::engine::model::database::next_identifier;
use crate::engine::model::database::put_all;
use crate::engine::model::database::refuses_node;
use crate::engine::model::model::observation_refused;
use crate::engine::model::database::stores_node;
use crate::engine::model::database::upserted_all;
use crate::engine::model::database::word_rows;
use crate::engine::model::database::Database;
use crate::engine::model::database::DatabaseView;
use crate::engine::model::database::Direction;
use crate::engine::model::dictionary::learned;
use crate::engine::model::dictionary::Dictionary;
use crate::engine::model::dictionary::Learning;
use crate::engine::model::error::EngineError;
use crate::engine::model::model::node_after;
use crate::engine::model::model::sources_of;
use crate::engine::model::model::Statistics;
use crate::engine::model::sequences::lemma_filter_step;
use crate::engine::model::text::lowercase_of;
use crate::engine::model::text::lowered;
use crate::engine::model::text::texts_of;
use crate::engine::model::text::to_lowercase;
use vstd::prelude::*;

verus! {

/// The filter of a store: its banned texts, each with the id of its token,
/// and the texts banned in every context.
pub open spec fn filter_of(store: DatabaseView, generic: Seq<Seq<char>>) -> BannedDictionaryView {
    BannedDictionaryView { banned: store.banned_entries(None), generic }
}

/// The texts that may be learned: those whose lower-case form has no banned
/// text as a part.
pub open spec fn learnable_texts(texts: Seq<Seq<char>>, filter: BannedDictionaryView) -> Seq<
    Seq<char>,
> {
    texts.filter(|text: Seq<char>| !filter.bans_text(lowercase_of(text)))
}

/// Each id with the one that follows it.
pub open spec fn forward_pairs(ids: Seq<i32>) -> Seq<(i32, i32)> {
    if ids.len() < 2 {
        Seq::empty()
    } else {
        Seq::new((ids.len() - 1) as nat, |k: int| (ids[k], ids[k + 1]))
    }
}

/// Each id with the one that comes before it.
pub open spec fn reverse_pairs(ids: Seq<i32>) -> Seq<(i32, i32)> {
    if ids.len() < 2 {
        Seq::empty()
    } else {
        Seq::new((ids.len() - 1) as nat, |k: int| (ids[k + 1], ids[k]))
    }
}

/// Whether `table` is the table of one direction of `before` after `pairs`
/// were observed at time `now`: the node of each source is stored anew,
/// with its observations, decimated, and no other row has changed.
pub open spec fn observations_stored(
    before: DatabaseView,
    table: Map<i32, Seq<u8>>,
    direction: Direction,
    pairs: Seq<(i32, i32)>,
    now: i64,
    filter: BannedDictionaryView,
) -> bool {
    exists|changes: Seq<(i32, Option<Seq<u8>>)>|
        {
            &&& changes.len() == sources_of(pairs).len()
            &&& forall|k: int|
                0 <= k < changes.len() ==> stores_node(
                    #[trigger] changes[k],
                    sources_of(pairs)[k],
                    node_after(before, direction, sources_of(pairs)[k], pairs, now, filter),
                )
            &&& table == put_all(before.table(direction), changes)
        }
}

/// Whether the dictionary of a store can learn those of `texts` that are
/// not banned: ids do not run out, the tokens encode, and the table takes
/// them.
pub open spec fn dictionary_learns(
    before: DatabaseView,
    generic: Seq<Seq<char>>,
    texts: Seq<Seq<char>>,
) -> bool {
    let kept = learnable_texts(texts, filter_of(before, generic));
    let start = Learning {
        tokens: before.words_by_token(lowered(kept)),
        next: next_identifier(before.dictionary),
        ids: Seq::empty(),
    };
    &&& learned(start, kept) is Some
    &&& word_rows(learned(start, kept)->0.tokens) is Some
    &&& upserted_all(before.dictionary, word_rows(learned(start, kept)->0.tokens)->0) is Some
}

/// Whether a store may refuse to learn `texts` at time `now`: its
/// dictionary cannot learn them, or it may refuse the observation of the
/// pairs of their ids in one direction.
pub open spec fn learning_refused(
    before: DatabaseView,
    generic: Seq<Seq<char>>,
    texts: Seq<Seq<char>>,
    now: i64,
) -> bool {
    let filter = filter_of(before, generic);
    let kept = learnable_texts(texts, filter);
    let start = Learning {
        tokens: before.words_by_token(lowered(kept)),
        next: next_identifier(before.dictionary),
        ids: Seq::empty(),
    };
    !dictionary_learns(before, generic, texts) || {
        let end = learned(start, kept)->0;
        let grown = DatabaseView {
            dictionary: upserted_all(before.dictionary, word_rows(end.tokens)->0)->0,
            ..before
        };
        ||| observation_refused(grown, Direction::Forward, forward_pairs(end.ids), now, filter)
        ||| observation_refused(grown, Direction::Reverse, reverse_pairs(end.ids), now, filter)
    }
}

/// Whether `after` is the store `before` after `texts` were learned at
/// time `now`: the texts that are not banned are learned by the
/// dictionary, and each adjacent pair of their ids is observed in both
/// directions.
pub open spec fn learns(
    before: DatabaseView,
    after: DatabaseView,
    generic: Seq<Seq<char>>,
    texts: Seq<Seq<char>>,
    now: i64,
) -> bool {
    let filter = filter_of(before, generic);
    let kept = learnable_texts(texts, filter);
    let start = Learning {
        tokens: before.words_by_token(lowered(kept)),
        next: next_identifier(before.dictionary),
        ids: Seq::empty(),
    };
    &&& learned(start, kept) is Some
    &&& word_rows(learned(start, kept)->0.tokens) is Some
    &&& upserted_all(before.dictionary, word_rows(learned(start, kept)->0.tokens)->0) is Some
    &&& after.dictionary == upserted_all(
        before.dictionary,
        word_rows(learned(start, kept)->0.tokens)->0,
    )->0
    &&& after.banned == before.banned
    &&& observations_stored(
        DatabaseView { dictionary: after.dictionary, ..before },
        after.forward,
        Direction::Forward,
        forward_pairs(learned(start, kept)->0.ids),
        now,
        filter,
    )
    &&& observations_stored(
        DatabaseView { dictionary: after.dictionary, ..before },
        after.reverse,
        Direction::Reverse,
        reverse_pairs(learned(start, kept)->0.ids),
        now,
        filter,
    )
}

/// The texts among `texts` that `filter` lets through.
fn gate(filter: &BannedDictionary, texts: &Vec<String>) -> (kept: Vec<String>)
    ensures
        texts_of(kept@) == learnable_texts(texts_of(texts@), filter@),
{
    let ghost all = texts_of(texts@);
    let ghost passes = |text: Seq<char>| !filter@.bans_text(lowercase_of(text));
    let mut kept: Vec<String> = Vec::new();
    let mut i: usize = 0;
    proof {
        assert(texts_of(kept@) =~= Seq::empty());
        assert(all.take(0) =~= Seq::empty());
    }
    while i < texts.len()
        invariant
            i <= texts.len(),
            all == texts_of(texts@),
            passes == |text: Seq<char>| !filter@.bans_text(lowercase_of(text)),
            texts_of(kept@) == all.take(i as int).filter(passes),
        decreases texts.len() - i,
    {
        let canonical = to_lowercase(texts[i].as_str());
        proof {
            lemma_filter_step(all, passes, i as int);
        }
        if !filter.is_text_banned(canonical.as_str()) {
            let ghost before = texts_of(kept@);
            kept.push(texts[i].clone());
            assert(texts_of(kept@) =~= before.push(all[i as int]));
        }
        i = i + 1;
    }
    proof {
        assert(all.take(i as int) =~= all);
    }
    kept
}

/// Each id with the one that follows it, and each id with the one that
/// comes before it.
fn adjacent_pairs(ids: &Vec<i32>) -> (pairs: (Vec<(i32, i32)>, Vec<(i32, i32)>))
    ensures
        pairs.0@ == forward_pairs(ids@),
        pairs.1@ == reverse_pairs(ids@),
{
    let mut forward: Vec<(i32, i32)> = Vec::new();
    let mut reverse: Vec<(i32, i32)> = Vec::new();
    if ids.len() < 2 {
        return (forward, reverse);
    }
    let mut k: usize = 0;
    while k + 1 < ids.len()
        invariant
            ids.len() >= 2,
            k + 1 <= ids.len(),
            forward@.len() == k,
            reverse@.len() == k,
            forall|j: int| 0 <= j < k ==> #[trigger] forward@[j] == (ids@[j], ids@[j + 1]),
            forall|j: int| 0 <= j < k ==> #[trigger] reverse@[j] == (ids@[j + 1], ids@[j]),
        decreases ids.len() - k,
    {
        forward.push((ids[k], ids[k + 1]));
        reverse.push((ids[k + 1], ids[k]));
        k = k + 1;
    }
    proof {
        assert(forward@ =~= forward_pairs(ids@));
        assert(reverse@ =~= reverse_pairs(ids@));
    }
    (forward, reverse)
}

/// Learns `texts` at time `now`, unless they are not `learnable`: the texts
/// whose lower-case form has no banned text as a part are learned by the
/// dictionary, and each adjacent pair of their ids is observed forward and
/// in reverse. Where any step is refused, the store stays as it was.
pub fn learn(
    database: &mut Database,
    dictionary: &Dictionary,
    banned_tokens_generic: &Vec<String>,
    texts: &Vec<String>,
    learnable: bool,
    now: i64,
) -> (r: Result<(), EngineError>)
    requires
        old(database).wf(),
    ensures
        final(database).wf(),
        !learnable ==> r is Ok && final(database)@ == old(database)@,
        r is Err ==> final(database)@ == old(database)@,
        learnable && !dictionary_learns(
            old(database)@,
            texts_of(banned_tokens_generic@),
            texts_of(texts@),
        ) ==> r is Err,
        r is Err ==> learning_refused(
            old(database)@,
            texts_of(banned_tokens_generic@),
            texts_of(texts@),
            now,
        ),
        learnable && r is Ok ==> learns(
            old(database)@,
            final(database)@,
            texts_of(banned_tokens_generic@),
            texts_of(texts@),
            now,
        ),
{
    if !learnable {
        return Ok(());
    }
    let filter = match BannedDictionary::new(database, banned_tokens_generic) {
        Ok(filter) => filter,
        Err(e) => {
            return Err(e);
        },
    };
    assert(filter@ == filter_of(database@, texts_of(banned_tokens_generic@)));
    let kept = gate(&filter, texts);
    let mut work = database.clone();
    let ids = match dictionary.learn(&mut work, &kept) {
        Ok(ids) => ids,
        Err(e) => {
            return Err(e);
        },
    };
    let ghost mid = work@;
    let (forward, reverse) = adjacent_pairs(&ids);
    match Statistics::new(Direction::Forward).observe(&mut work, &filter, &forward, now) {
        Ok(_) => {},
        Err(e) => {
            return Err(e);
        },
    }
    let ghost half = work@;
    match Statistics::new(Direction::Reverse).observe(&mut work, &filter, &reverse, now) {
        Ok(_) => {},
        Err(e) => {
            proof {
                let k = choose|k: int|
                    0 <= k < sources_of(reverse@).len() && refuses_node(
                        half,
                        #[trigger] sources_of(reverse@)[k],
                        node_after(
                            half,
                            Direction::Reverse,
                            sources_of(reverse@)[k],
                            reverse@,
                            now,
                            filter@,
                        ),
                    );
                let source = sources_of(reverse@)[k];
                assert(half.node(Direction::Reverse, source) == mid.node(
                    Direction::Reverse,
                    source,
                ));
                assert(half.has_id(source) == mid.has_id(source));
                assert(refuses_node(
                    mid,
                    sources_of(reverse@)[k],
                    node_after(
                        mid,
                        Direction::Reverse,
                        sources_of(reverse@)[k],
                        reverse@,
                        now,
                        filter@,
                    ),
                ));
            }
            return Err(e);
        },
    }
    proof {
        let before = old(database)@;
        let whole = DatabaseView { dictionary: work@.dictionary, ..before };
        assert(mid == whole);
        assert(work@.forward == half.forward);
        assert(half.reverse == mid.reverse);
        assert(observations_stored(
            whole,
            work@.forward,
            Direction::Forward,
            forward_pairs(ids@),
            now,
            filter@,
        ));
        let changes = choose|changes: Seq<(i32, Option<Seq<u8>>)>|
            {
                &&& changes.len() == sources_of(reverse@).len()
                &&& forall|k: int|
                    0 <= k < changes.len() ==> stores_node(
                        #[trigger] changes[k],
                        sources_of(reverse@)[k],
                        node_after(
                            half,
                            Direction::Reverse,
                            sources_of(reverse@)[k],
                            reverse@,
                            now,
                            filter@,
                        ),
                    )
                &&& work@ == half.with_table(
                    Direction::Reverse,
                    put_all(half.table(Direction::Reverse), changes),
                )
            };
        assert forall|k: int| 0 <= k < changes.len() implies stores_node(
            #[trigger] changes[k],
            sources_of(reverse@)[k],
            node_after(
                whole,
                Direction::Reverse,
                sources_of(reverse@)[k],
                reverse@,
                now,
                filter@,
            ),
        ) by {
            let source = sources_of(reverse@)[k];
            assert(half.node(Direction::Reverse, source) == whole.node(
                Direction::Reverse,
                source,
            ));
        }
        assert(observations_stored(
            whole,
            work@.reverse,
            Direction::Reverse,
            reverse_pairs(ids@),
            now,
            filter@,
        ));
    }
    *database = work;
    Ok(())
}

/// The other direction.
pub open spec fn opposite(direction: Direction) -> Direction {
    match direction {
        Direction::Forward => Direction::Reverse,
        Direction::Reverse => Direction::Forward,
    }
}

/// The ids of the tokens that banned entries are linked to, in their order.
pub open spec fn linked_ids(entries: Seq<BannedTokenView>) -> Seq<i32>
    decreases entries.len(),
{
    if entries.len() == 0 {
        Seq::empty()
    } else {
        let before = linked_ids(entries.drop_last());
        match entries.last().dictionary_id {
            Some(id) => before.push(id),
            None => before,
        }
    }
}

/// A transition map without the transitions that lead to `targets`.
pub open spec fn without_targets(transitions: Map<i32, Transition>, targets: Seq<i32>) -> Map<
    i32,
    Transition,
> {
    Map::new(
        |k: i32| transitions.contains_key(k) && !targets.contains(k),
        |k: i32| transitions[k],
    )
}

/// Whether, by the table of the other direction, the node of `id` has a
/// transition to one of `linked`.
pub open spec fn points_to(
    store: DatabaseView,
    direction: Direction,
    id: i32,
    linked: Seq<i32>,
) -> bool {
    exists|x: i32|
        linked.contains(x) && store.node(opposite(direction), x) is Some && (#[trigger] store.node(
            opposite(direction),
            x,
        ))->0.contains_key(id)
}

/// Whether `table` is the table of one direction of `before` after the
/// tokens `linked` were banned: every node that pointed to one of them is
/// stored anew without those transitions, and the nodes of the banned
/// tokens themselves are deleted.
pub open spec fn cascade_stored(
    before: DatabaseView,
    table: Map<i32, Seq<u8>>,
    direction: Direction,
    linked: Seq<i32>,
) -> bool {
    exists|neighbours: Seq<i32>, changes: Seq<(i32, Option<Seq<u8>>)>|
        {
            &&& neighbours.no_duplicates()
            &&& forall|n: i32| #[trigger]
                neighbours.contains(n) <==> !linked.contains(n) && before.node(direction, n)
                    is Some && points_to(before, direction, n, linked)
            &&& changes.len() == neighbours.len() + linked.len()
            &&& forall|k: int|
                0 <= k < neighbours.len() ==> stores_node(
                    #[trigger] changes[k],
                    neighbours[k],
                    without_targets(before.node(direction, neighbours[k])->0, linked),
                )
            &&& forall|j: int|
                0 <= j < linked.len() ==> #[trigger] changes[neighbours.len() + j] == (
                    linked[j],
                    None::<Seq<u8>>,
                )
            &&& table == put_all(before.table(direction), changes)
        }
}

/// Whether `after` is the store `before` after `texts` were banned, with
/// `added` the entries that the ban returned: the texts are in the banned
/// table, the tokens they are linked to have lost their capitalised forms,
/// and both tables of nodes are rid of them.
pub open spec fn cascades(
    before: DatabaseView,
    after: DatabaseView,
    generic: Seq<Seq<char>>,
    texts: Seq<Seq<char>>,
    added: Seq<BannedTokenView>,
) -> bool {
    let fresh = lowered(texts).filter(|text: Seq<char>| !filter_of(before, generic).has_text(text));
    let linked = linked_ids(added);
    &&& after.banned == with_banned(before.banned, fresh)
    &&& added == (DatabaseView { banned: after.banned, ..before }).banned_entries(Some(fresh))
    &&& after.dictionary == scrubbed_rows(before.dictionary, linked)
    &&& cascade_stored(before, after.forward, Direction::Forward, linked)
    &&& cascade_stored(before, after.reverse, Direction::Reverse, linked)
}

/// Whether a store may refuse the ban of `texts`: it may refuse a node
/// that pointed to one of the banned tokens as it would be stored without
/// those transitions.
pub open spec fn cascade_refused(
    before: DatabaseView,
    generic: Seq<Seq<char>>,
    texts: Seq<Seq<char>>,
) -> bool {
    let fresh = lowered(texts).filter(|text: Seq<char>| !filter_of(before, generic).has_text(text));
    let banned = DatabaseView { banned: with_banned(before.banned, fresh), ..before };
    let linked = linked_ids(banned.banned_entries(Some(fresh)));
    exists|direction: Direction, n: i32|
        before.node(direction, n) is Some && #[trigger] refuses_node(
            before,
            n,
            without_targets(before.node(direction, n)->0, linked),
        )
}

/// After a ban, no node is stored for a banned token in either direction,
/// so none is loaded for it, and the token has no capitalised forms left.
pub proof fn lemma_cascade_clears(
    before: DatabaseView,
    after: DatabaseView,
    generic: Seq<Seq<char>>,
    texts: Seq<Seq<char>>,
    added: Seq<BannedTokenView>,
    id: i32,
)
    requires
        cascades(before, after, generic, texts, added),
        linked_ids(added).contains(id),
    ensures
        !after.forward.contains_key(id),
        !after.reverse.contains_key(id),
        after.node(Direction::Forward, id) is None,
        after.node(Direction::Reverse, id) is None,
        forall|now: i64, filter: BannedDictionaryView|
            #[trigger] crate::engine::model::model::loaded_node(
                after,
                Direction::Forward,
                id,
                now,
                filter,
            ) == Map::<i32, Transition>::empty(),
        forall|now: i64, filter: BannedDictionaryView|
            #[trigger] crate::engine::model::model::loaded_node(
                after,
                Direction::Reverse,
                id,
                now,
                filter,
            ) == Map::<i32, Transition>::empty(),
        forall|i: int|
            0 <= i < after.dictionary.len() && (#[trigger] after.dictionary[i]).id == id
                ==> after.dictionary[i].forms is None && crate::engine::model::database::row_forms(
                after.dictionary[i],
            ) == Seq::<(Seq<char>, u32)>::empty(),
{
    let linked = linked_ids(added);
    lemma_cascade_deletes(before, after.forward, Direction::Forward, linked, id);
    lemma_cascade_deletes(before, after.reverse, Direction::Reverse, linked, id);
}

/// A table that is rid of banned tokens has no row of any of them.
pub proof fn lemma_cascade_deletes(
    before: DatabaseView,
    table: Map<i32, Seq<u8>>,
    direction: Direction,
    linked: Seq<i32>,
    id: i32,
)
    requires
        cascade_stored(before, table, direction, linked),
        linked.contains(id),
    ensures
        !table.contains_key(id),
{
    let (neighbours, changes) = choose|
        neighbours: Seq<i32>,
        changes: Seq<(i32, Option<Seq<u8>>)>,
    |
        {
            &&& neighbours.no_duplicates()
            &&& forall|n: i32| #[trigger]
                neighbours.contains(n) <==> !linked.contains(n) && before.node(direction, n)
                    is Some && points_to(before, direction, n, linked)
            &&& changes.len() == neighbours.len() + linked.len()
            &&& forall|k: int|
                0 <= k < neighbours.len() ==> stores_node(
                    #[trigger] changes[k],
                    neighbours[k],
                    without_targets(before.node(direction, neighbours[k])->0, linked),
                )
            &&& forall|j: int|
                0 <= j < linked.len() ==> #[trigger] changes[neighbours.len() + j] == (
                    linked[j],
                    None::<Seq<u8>>,
                )
            &&& table == put_all(before.table(direction), changes)
        };
    let from = neighbours.len() as int;
    let j = choose|j: int| 0 <= j < linked.len() && linked[j] == id;
    assert(changes[from + j].0 == id);
    assert forall|k: int| from <= k < changes.len() implies (#[trigger] changes[k]).1 is None by {
        assert(changes[from + (k - from)] == (linked[k - from], None::<Seq<u8>>));
    }
    lemma_put_all_deleted(before.table(direction), changes, from, id);
}

/// The ids of the tokens that `added` are linked to.
fn linked_of(added: &Vec<BannedToken>) -> (linked: Vec<i32>)
    ensures
        linked@ == linked_ids(banned_views(added@)),
{
    let ghost entries = banned_views(added@);
    let mut linked: Vec<i32> = Vec::new();
    let mut i: usize = 0;
    proof {
        assert(entries.take(0) =~= Seq::empty());
    }
    while i < added.len()
        invariant
            i <= added.len(),
            entries == banned_views(added@),
            linked@ == linked_ids(entries.take(i as int)),
        decreases added.len() - i,
    {
        proof {
            assert(entries.take(i + 1).drop_last() =~= entries.take(i as int));
            assert(entries.take(i + 1).last() == added@[i as int]@);
        }
        match added[i].get_dictionary_id() {
            Some(id) => {
                linked.push(id);
            },
            None => {},
        }
        i = i + 1;
    }
    proof {
        assert(entries.take(i as int) =~= entries);
    }
    linked
}

/// Whether `id` is one of `ids`.
fn among(ids: &Vec<i32>, id: i32) -> (found: bool)
    ensures
        found == ids@.contains(id),
{
    let mut j: usize = 0;
    while j < ids.len()
        invariant
            j <= ids.len(),
            forall|k: int| 0 <= k < j ==> ids@[k] != id,
        decreases ids.len() - j,
    {
        if ids[j] == id {
            return true;
        }
        j = j + 1;
    }
    false
}

/// The targets of the nodes of `linked` among `pointing`, each once, but
/// for those among `linked` themselves.
fn candidates(pointing: &HashMap<i32, Node>, linked: &Vec<i32>) -> (found: Vec<i32>)
    ensures
        found@.no_duplicates(),
        forall|n: i32| #[trigger]
            found@.contains(n) <==> !linked@.contains(n) && exists|x: i32|
                linked@.contains(x) && pointing@.contains_key(x)
                    && (#[trigger] pointing@[x])@.contains_key(
                    n,
                ),
{
    broadcast use group_hash_axioms;
    let mut found: Vec<i32> = Vec::new();
    let mut i: usize = 0;
    while i < linked.len()
        invariant
            i <= linked.len(),
            found@.no_duplicates(),
            forall|n: i32| #[trigger]
                found@.contains(n) <==> !linked@.contains(n) && exists|j: int|
                    0 <= j < i && pointing@.contains_key(linked@[j]) && (
                    #[trigger] pointing@[linked@[j]])@.contains_key(n),
        decreases linked.len() - i,
    {
        let x = linked[i];
        match pointing.get(&x) {
            Some(node) => {
                let triples = node.triples();
                let ghost start = found@;
                let mut t: usize = 0;
                while t < triples.len()
                    invariant
                        t <= triples.len(),
                        i < linked.len(),
                        x == linked@[i as int],
                        pointing@.contains_key(x),
                        crate::engine::model::model::lists(triples@, pointing@[x]@),
                        found@.no_duplicates(),
                        forall|n: i32| #[trigger]
                            found@.contains(n) <==> start.contains(n) || (!linked@.contains(n)
                                && exists|u: int| 0 <= u < t && (#[trigger] triples@[u]).0 == n),
                    decreases triples.len() - t,
                {
                    let n = triples[t].0;
                    let ghost before = found@;
                    if !among(linked, n) && !among(&found, n) {
                        found.push(n);
                        proof {
                            assert forall|a: int, b: int|
                                0 <= a < found@.len() && 0 <= b < found@.len()
                                    && a != b implies found@[a]
                                != found@[b] by {
                                if a < before.len() {
                                    assert(before.contains(before[a]));
                                }
                                if b < before.len() {
                                    assert(before.contains(before[b]));
                                }
                            }
                        }
                    }
                    proof {
                        assert forall|m: i32| #[trigger]
                            found@.contains(m) <==> start.contains(m) || (!linked@.contains(m)
                                && exists|u: int|
                                0 <= u < t + 1 && (#[trigger] triples@[u]).0 == m) by {
                            if found@.contains(m) {
                                let a = choose|a: int| 0 <= a < found@.len() && found@[a] == m;
                                if a < before.len() {
                                    assert(before[a] == m);
                                    assert(before.contains(m));
                                } else {
                                    assert(triples@[t as int].0 == m);
                                }
                            }
                            if before.contains(m) {
                                let a = choose|a: int| 0 <= a < before.len() && before[a] == m;
                                assert(found@[a] == m);
                            }
                            if !linked@.contains(m) && exists|u: int|
                                0 <= u < t + 1 && (#[trigger] triples@[u]).0 == m {
                                let u = choose|u: int|
                                    0 <= u < t + 1 && (#[trigger] triples@[u]).0 == m;
                                if u == t {
                                    if !before.contains(m) {
                                        assert(found@[before.len() as int] == m);
                                    }
                                } else {
                                    assert(before.contains(m));
                                }
                            }
                        }
                    }
                    t = t + 1;
                }
                proof {
                    let node_map = pointing@[x]@;
                    assert forall|n: i32| #[trigger]
                        found@.contains(n) <==> !linked@.contains(n) && exists|j: int|
                            0 <= j < i + 1 && pointing@.contains_key(linked@[j]) && (
                            #[trigger] pointing@[linked@[j]])@.contains_key(n) by {
                        if found@.contains(n) {
                            if start.contains(n) {
                                let j = choose|j: int|
                                    0 <= j < i && pointing@.contains_key(linked@[j]) && (
                                    #[trigger] pointing@[linked@[j]])@.contains_key(n);
                                assert(pointing@[linked@[j]]@.contains_key(n));
                            } else {
                                let u = choose|u: int|
                                    0 <= u < triples@.len() && (#[trigger] triples@[u]).0 == n;
                                assert(node_map.contains_key(triples@[u].0));
                                assert(pointing@[linked@[i as int]]@.contains_key(n));
                            }
                        }
                        if !linked@.contains(n) && exists|j: int|
                            0 <= j < i + 1 && pointing@.contains_key(linked@[j]) && (
                            #[trigger] pointing@[linked@[j]])@.contains_key(n) {
                            let j = choose|j: int|
                                0 <= j < i + 1 && pointing@.contains_key(linked@[j]) && (
                                #[trigger] pointing@[linked@[j]])@.contains_key(n);
                            if j < i {
                                assert(pointing@[linked@[j]]@.contains_key(n));
                                assert(start.contains(n));
                            } else {
                                assert(node_map.contains_key(n));
                                let u = choose|u: int|
                                    0 <= u < triples@.len() && (#[trigger] triples@[u]).0 == n;
                                assert(triples@[u].0 == n);
                            }
                        }
                    }
                }
            },
            None => {},
        }
        i = i + 1;
    }
    proof {
        assert forall|n: i32| #[trigger]
            found@.contains(n) <==> !linked@.contains(n) && exists|x: i32|
                linked@.contains(x) && pointing@.contains_key(x)
                    && (#[trigger] pointing@[x])@.contains_key(
                    n,
                ) by {
            if found@.contains(n) {
                let j = choose|j: int|
                    0 <= j < i && pointing@.contains_key(linked@[j]) && (
                    #[trigger] pointing@[linked@[j]])@.contains_key(n);
                assert(linked@.contains(linked@[j]));
                assert(pointing@[linked@[j]]@.contains_key(n));
            }
            if !linked@.contains(n) && exists|x: i32|
                linked@.contains(x) && pointing@.contains_key(x)
                    && (#[trigger] pointing@[x])@.contains_key(
                    n,
                ) {
                let x = choose|x: i32|
                    linked@.contains(x) && pointing@.contains_key(x) && (
                    #[trigger] pointing@[x])@.contains_key(n);
                let j = choose|j: int| 0 <= j < linked@.len() && linked@[j] == x;
                assert(pointing@[linked@[j]]@.contains_key(n));
            }
        }
    }
    found
}

/// Rids the table of one direction of the tokens `linked`: the nodes of
/// `pointing`, which are those that point to one of them, are stored anew
/// without those transitions, and the nodes of `linked` are deleted.
fn scrub_table(
    work: &mut Database,
    direction: Direction,
    linked: &Vec<i32>,
    pointing: &Vec<i32>,
    before: Ghost<DatabaseView>,
) -> (r: Result<(), EngineError>)
    requires
        old(work).wf(),
        old(work)@.table(direction) == before@.table(direction),
        pointing@.no_duplicates(),
        forall|n: i32| #[trigger]
            pointing@.contains(n) <==> !linked@.contains(n) && points_to(
                before@,
                direction,
                n,
                linked@,
            ),
    ensures
        final(work).wf(),
        r is Err ==> final(work)@ == old(work)@,
        r is Err ==> exists|n: i32|
            before@.node(direction, n) is Some && #[trigger] refuses_node(
                old(work)@,
                n,
                without_targets(before@.node(direction, n)->0, linked@),
            ),
        r is Ok ==> final(work)@ == old(work)@.with_table(direction, final(work)@.table(direction))
            && cascade_stored(before@, final(work)@.table(direction), direction, linked@),
{
    broadcast use group_hash_axioms;
    let mut stored = match work.model_get_transitions(direction, pointing) {
        Ok(stored) => stored,
        Err(e) => {
            return Err(e);
        },
    };
    let ghost all = stored@;
    let ghost mut neighbours: Seq<i32> = Seq::empty();
    let mut nodes: Vec<(i32, Node)> = Vec::new();
    let mut i: usize = 0;
    while i < pointing.len()
        invariant
            i <= pointing.len(),
            *work == *old(work),
            work.wf(),
            work@.table(direction) == before@.table(direction),
            pointing@.no_duplicates(),
            forall|id: i32| #[trigger]
                all.contains_key(id) <==> pointing@.contains(id) && before@.node(direction, id)
                    is Some,
            forall|id: i32| #[trigger]
                all.contains_key(id) ==> all[id]@ == before@.node(direction, id)->0,
            forall|k: int|
                i <= k < pointing@.len() ==> (stored@.contains_key(#[trigger] pointing@[k])
                    <==> all.contains_key(pointing@[k])),
            forall|k: int|
                i <= k < pointing@.len() && all.contains_key(#[trigger] pointing@[k])
                    ==> stored@[pointing@[k]] == all[pointing@[k]],
            nodes@.len() == neighbours.len(),
            neighbours.no_duplicates(),
            forall|n: i32| #[trigger]
                neighbours.contains(n) <==> all.contains_key(n) && exists|k: int|
                    0 <= k < i && pointing@[k] == n,
            forall|k: int|
                0 <= k < nodes@.len() ==> (#[trigger] nodes@[k]).0 == neighbours[k] && nodes@[k].1@
                    == without_targets(before@.node(direction, neighbours[k])->0, linked@),
        decreases pointing.len() - i,
    {
        let n = pointing[i];
        let ghost held = stored@;
        let ghost listed = neighbours;
        match stored.remove(&n) {
            Some(node) => {
                let mut node = node;
                let ghost whole = node@;
                let mut j: usize = 0;
                proof {
                    assert(linked@.take(0) =~= Seq::empty());
                    assert(node@ =~= without_targets(whole, linked@.take(0)));
                }
                while j < linked.len()
                    invariant
                        j <= linked.len(),
                        node@ == without_targets(whole, linked@.take(j as int)),
                    decreases linked.len() - j,
                {
                    node.remove_transition(linked[j]);
                    proof {
                        let shorter = linked@.take(j as int);
                        let longer = linked@.take(j + 1);
                        assert(longer =~= shorter.push(linked@[j as int]));
                        assert forall|k: i32|
                            longer.contains(k) <==> shorter.contains(k) || k == linked@[j as int] by {
                            if shorter.contains(k) {
                                let a = choose|a: int| 0 <= a < shorter.len() && shorter[a] == k;
                                assert(longer[a] == k);
                            }
                            if k == linked@[j as int] {
                                assert(longer[j as int] == k);
                            }
                        }
                        assert(node@ =~= without_targets(whole, longer));
                    }
                    j = j + 1;
                }
                proof {
                    assert(linked@.take(j as int) =~= linked@);
                }
                nodes.push((n, node));
                proof {
                    neighbours = neighbours.push(n);
                    assert(!listed.contains(n)) by {
                        if listed.contains(n) {
                            let k = choose|k: int| 0 <= k < i && pointing@[k] == n;
                            assert(pointing@[k] == pointing@[i as int]);
                        }
                    }
                }
            },
            None => {},
        }
        proof {
            assert forall|k: int| i < k < pointing@.len() implies (stored@.contains_key(
                #[trigger] pointing@[k],
            ) <==> all.contains_key(pointing@[k])) && (all.contains_key(pointing@[k])
                ==> stored@[pointing@[k]] == all[pointing@[k]]) by {
                assert(pointing@[k] != pointing@[i as int]);
                assert(held.contains_key(pointing@[k]) <==> all.contains_key(pointing@[k]));
            }
            assert forall|m: i32| #[trigger]
                neighbours.contains(m) <==> all.contains_key(m) && exists|k: int|
                    0 <= k < i + 1 && pointing@[k] == m by {
                if neighbours.contains(m) {
                    let a = choose|a: int| 0 <= a < neighbours.len() && neighbours[a] == m;
                    if a < listed.len() {
                        assert(listed[a] == m);
                        assert(listed.contains(m));
                        let k = choose|k: int| 0 <= k < i && pointing@[k] == m;
                        assert(pointing@[k] == m);
                    } else {
                        assert(pointing@[i as int] == m);
                    }
                }
                if all.contains_key(m) && exists|k: int| 0 <= k < i + 1 && pointing@[k] == m {
                    let k = choose|k: int| 0 <= k < i + 1 && pointing@[k] == m;
                    if k < i {
                        assert(listed.contains(m));
                        let a = choose|a: int| 0 <= a < listed.len() && listed[a] == m;
                        assert(neighbours[a] == m);
                    } else {
                        assert(held.contains_key(pointing@[i as int]));
                        assert(neighbours[listed.len() as int] == m);
                    }
                }
            }
        }
        i = i + 1;
    }
    let ghost count = nodes@.len();
    let mut j: usize = 0;
    while j < linked.len()
        invariant
            j <= linked.len(),
            *work == *old(work),
            work.wf(),
            count == neighbours.len(),
            nodes@.len() == count + j,
            forall|k: int|
                0 <= k < count ==> (#[trigger] nodes@[k]).0 == neighbours[k] && nodes@[k].1@
                    == without_targets(before@.node(direction, neighbours[k])->0, linked@),
            forall|k: int|
                0 <= k < j ==> (#[trigger] nodes@[count + k]).0 == linked@[k] && nodes@[count
                    + k].1@ == Map::<i32, Transition>::empty(),
        decreases linked.len() - j,
    {
        nodes.push((linked[j], Node::empty()));
        j = j + 1;
    }
    let r = work.model_set_transitions(direction, &nodes);
    proof {
        if r is Err {
            let k = choose|k: int|
                0 <= k < nodes@.len() && refuses_node(
                    old(work)@,
                    (#[trigger] nodes@[k]).0,
                    nodes@[k].1@,
                );
            if k >= count {
                assert(nodes@[count + (k - count)].1@.len() == 0);
            }
            assert(neighbours.contains(neighbours[k]));
            assert(refuses_node(
                old(work)@,
                neighbours[k],
                without_targets(before@.node(direction, neighbours[k])->0, linked@),
            ));
        }
        if r is Ok {
            let changes = choose|changes: Seq<(i32, Option<Seq<u8>>)>|
                {
                    &&& changes.len() == nodes@.len()
                    &&& forall|k: int|
                        0 <= k < nodes@.len() ==> stores_node(
                            #[trigger] changes[k],
                            nodes@[k].0,
                            nodes@[k].1@,
                        )
                    &&& work@ == old(work)@.with_table(
                        direction,
                        put_all(old(work)@.table(direction), changes),
                    )
                };
            assert forall|k: int| 0 <= k < neighbours.len() implies stores_node(
                #[trigger] changes[k],
                neighbours[k],
                without_targets(before@.node(direction, neighbours[k])->0, linked@),
            ) by {
                assert(stores_node(changes[k], nodes@[k].0, nodes@[k].1@));
            }
            assert forall|k: int| 0 <= k < linked@.len() implies #[trigger] changes[neighbours.len()
                + k] == (linked@[k], None::<Seq<u8>>) by {
                let at = neighbours.len() + k;
                assert(stores_node(changes[at], nodes@[at].0, nodes@[at].1@));
                assert(nodes@[count + k].1@.len() == 0);
            }
            assert forall|n: i32| #[trigger]
                neighbours.contains(n) <==> !linked@.contains(n) && before@.node(direction, n)
                    is Some && points_to(before@, direction, n, linked@) by {
                if neighbours.contains(n) {
                    assert(all.contains_key(n));
                    assert(pointing@.contains(n));
                }
                if !linked@.contains(n) && before@.node(direction, n) is Some && points_to(
                    before@,
                    direction,
                    n,
                    linked@,
                ) {
                    assert(pointing@.contains(n));
                    assert(all.contains_key(n));
                    let k = choose|k: int| 0 <= k < pointing@.len() && pointing@[k] == n;
                    assert(pointing@[k] == n);
                }
            }
            assert(work@.table(direction) == put_all(before@.table(direction), changes));
        }
    }
    r
}

/// Bans `texts` and does what follows from it: the texts, lower-cased, are
/// stored in the banned table unless the filter holds them already; each
/// token that one of the new entries is linked to loses its capitalised
/// forms, its nodes in both directions are deleted, and the nodes that
/// pointed to it are stored anew without that transition. Returns the new
/// entries. Where any step is refused, the store stays as it was.
pub fn ban_cascade(
    database: &mut Database,
    banned_tokens_generic: &Vec<String>,
    texts: &Vec<String>,
) -> (r: Result<Vec<BannedToken>, EngineError>)
    requires
        old(database).wf(),
    ensures
        final(database).wf(),
        r is Err ==> final(database)@ == old(database)@,
        r is Err ==> cascade_refused(
            old(database)@,
            texts_of(banned_tokens_generic@),
            texts_of(texts@),
        ),
        r is Ok ==> cascades(
            old(database)@,
            final(database)@,
            texts_of(banned_tokens_generic@),
            texts_of(texts@),
            banned_views(r->Ok_0@),
        ),
{
    let ghost before = database@;
    let mut work = database.clone();
    let mut filter = match BannedDictionary::new(&work, banned_tokens_generic) {
        Ok(filter) => filter,
        Err(e) => {
            return Err(e);
        },
    };
    assert(filter@ == filter_of(before, texts_of(banned_tokens_generic@)));
    let added = match filter.ban(&mut work, texts) {
        Ok(added) => added,
        Err(e) => {
            return Err(e);
        },
    };
    let linked = linked_of(&added);
    match work.dictionary_scrub_forms(&linked) {
        Ok(_) => {},
        Err(e) => {
            return Err(e);
        },
    }
    let followers = match work.model_get_transitions(Direction::Forward, &linked) {
        Ok(nodes) => nodes,
        Err(e) => {
            return Err(e);
        },
    };
    let predecessors = match work.model_get_transitions(Direction::Reverse, &linked) {
        Ok(nodes) => nodes,
        Err(e) => {
            return Err(e);
        },
    };
    let forward_pointing = candidates(&predecessors, &linked);
    let reverse_pointing = candidates(&followers, &linked);
    proof {
        assert forall|n: i32| #[trigger]
            forward_pointing@.contains(n) <==> !linked@.contains(n) && points_to(
                before,
                Direction::Forward,
                n,
                linked@,
            ) by {
            if forward_pointing@.contains(n) {
                let x = choose|x: i32|
                    linked@.contains(x) && predecessors@.contains_key(x) && (
                    #[trigger] predecessors@[x])@.contains_key(n);
                assert(before.node(Direction::Reverse, x)->0.contains_key(n));
            }
            if !linked@.contains(n) && points_to(before, Direction::Forward, n, linked@) {
                let x = choose|x: i32|
                    linked@.contains(x) && before.node(Direction::Reverse, x) is Some && (
                    #[trigger] before.node(Direction::Reverse, x))->0.contains_key(n);
                assert(predecessors@.contains_key(x));
                assert(predecessors@[x]@.contains_key(n));
            }
        }
        assert forall|n: i32| #[trigger]
            reverse_pointing@.contains(n) <==> !linked@.contains(n) && points_to(
                before,
                Direction::Reverse,
                n,
                linked@,
            ) by {
            if reverse_pointing@.contains(n) {
                let x = choose|x: i32|
                    linked@.contains(x) && followers@.contains_key(x) && (
                    #[trigger] followers@[x])@.contains_key(n);
                assert(before.node(Direction::Forward, x)->0.contains_key(n));
            }
            if !linked@.contains(n) && points_to(before, Direction::Reverse, n, linked@) {
                let x = choose|x: i32|
                    linked@.contains(x) && before.node(Direction::Forward, x) is Some && (
                    #[trigger] before.node(Direction::Forward, x))->0.contains_key(n);
                assert(followers@.contains_key(x));
                assert(followers@[x]@.contains_key(n));
            }
        }
    }
    proof {
        assert forall|id: i32| work@.has_id(id) == before.has_id(id) by {
            if before.has_id(id) {
                let k = before.index_of_id(id);
                assert(work@.dictionary[k].id == id);
            }
            if work@.has_id(id) {
                let k = work@.index_of_id(id);
                assert(before.dictionary[k].id == id);
            }
        }
    }
    let ghost scrubbed = work@;
    match scrub_table(&mut work, Direction::Forward, &linked, &forward_pointing, Ghost(before)) {
        Ok(_) => {},
        Err(e) => {
            proof {
                let n = choose|n: i32|
                    before.node(Direction::Forward, n) is Some && #[trigger] refuses_node(
                        scrubbed,
                        n,
                        without_targets(before.node(Direction::Forward, n)->0, linked@),
                    );
                assert(scrubbed.has_id(n) == before.has_id(n));
                assert(refuses_node(
                    before,
                    n,
                    without_targets(before.node(Direction::Forward, n)->0, linked@),
                ));
            }
            return Err(e);
        },
    }
    let ghost half = work@;
    match scrub_table(&mut work, Direction::Reverse, &linked, &reverse_pointing, Ghost(before)) {
        Ok(_) => {},
        Err(e) => {
            proof {
                let n = choose|n: i32|
                    before.node(Direction::Reverse, n) is Some && #[trigger] refuses_node(
                        half,
                        n,
                        without_targets(before.node(Direction::Reverse, n)->0, linked@),
                    );
                assert(half.has_id(n) == before.has_id(n));
                assert(refuses_node(
                    before,
                    n,
                    without_targets(before.node(Direction::Reverse, n)->0, linked@),
                ));
            }
            return Err(e);
        },
    }
    *database = work;
    Ok(added)
}

/// Lifts the ban of `texts`: each leaves the banned table. Nothing that the
/// ban removed comes back.
pub fn unban(database: &mut Database, texts: &Vec<String>) -> (r: Result<(), EngineError>)
    requires
        old(database).wf(),
    ensures
        final(database).wf(),
        r is Ok,
        final(database)@ == (DatabaseView {
            banned: without_banned(old(database)@.banned, texts_of(texts@)),
            ..old(database)@
        }),
{
    database.banned_unban_tokens(texts)
}

} // verus!
