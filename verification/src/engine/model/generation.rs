//! Generating: from keywords, by weighted walks over the graph in both
//! directions, to a text.

use crate::engine::model::banned_dictionary::BannedDictionary;
use crate::engine::model::banned_dictionary::BannedDictionaryView;
use crate::engine::model::database::row_token;
use crate::engine::model::database::token_views;
use crate::engine::model::database::Database;
use crate::engine::model::database::DatabaseView;
use crate::engine::model::database::Direction;
use crate::engine::model::dictionary::Dictionary;
use crate::engine::model::dictionary::DictionaryTokenView;
use crate::engine::model::error::EngineError;
use crate::engine::model::model::lists;
use crate::engine::model::model::loaded_node;
use crate::engine::model::model::Statistics;
use crate::engine::model::model::Transition;
use crate::engine::model::orchestration::filter_of;
use crate::engine::model::sequences::lemma_filter_step;
use crate::engine::model::text::lowered;
use crate::engine::model::text::texts_of;
use vstd::string::*;
use vstd::prelude::*;
use vstd::std_specs::hash::*;

verus! {

/// A walk takes at most this many steps; so it ends on any graph.
pub const MAX_WALK_STEPS: usize = 32;

/// The occurrences of the first `n` triples together.
pub open spec fn weight_before(triples: Seq<(i32, u32, i64)>, n: int) -> int
    decreases n,
{
    if n <= 0 {
        0
    } else {
        weight_before(triples, n - 1) + triples[n - 1].1
    }
}

/// The occurrences of all triples together.
pub open spec fn total_weight(triples: Seq<(i32, u32, i64)>) -> int {
    weight_before(triples, triples.len() as int)
}

/// Whether `roll` picks `target` among `triples`: the triples lie one
/// after the other on a line, each as long as its occurrences, and
/// `target` is the target of the triple on which the point
/// `roll % total_weight` falls. So each is picked in proportion to its
/// occurrences when `roll` is uniform.
pub open spec fn picks(triples: Seq<(i32, u32, i64)>, roll: u64, target: i32) -> bool {
    &&& total_weight(triples) > 0
    &&& exists|i: int|
        0 <= i < triples.len() && (#[trigger] triples[i]).0 == target && weight_before(triples, i)
            <= (roll as int) % total_weight(triples) < weight_before(triples, i + 1)
}

/// Weights add up to no less than before, and stay within bounds.
pub proof fn lemma_weight_before(triples: Seq<(i32, u32, i64)>, n: int)
    requires
        0 <= n <= triples.len(),
    ensures
        0 <= weight_before(triples, n) <= n * 0xffff_ffff,
        forall|m: int| 0 <= m <= n ==> weight_before(triples, m) <= weight_before(triples, n),
        weight_before(triples, n) == 0 ==> forall|i: int|
            0 <= i < n ==> (#[trigger] triples[i]).1 == 0,
    decreases n,
{
    if n > 0 {
        lemma_weight_before(triples, n - 1);
        assert(weight_before(triples, n) <= (n - 1) * 0xffff_ffff + 0xffff_ffff);
        assert((n - 1) * 0xffff_ffff + 0xffff_ffff == n * 0xffff_ffff) by (nonlinear_arith);
    }
}

/// Picks a target among `triples` by `roll`, each in proportion to its
/// occurrences. Where no triple has occurrences, none is picked.
pub fn pick(triples: &Vec<(i32, u32, i64)>, roll: u64) -> (r: Option<i32>)
    ensures
        match r {
            Some(target) => picks(triples@, roll, target),
            None => total_weight(triples@) == 0,
        },
{
    let mut total: u128 = 0;
    let mut n: usize = 0;
    while n < triples.len()
        invariant
            n <= triples.len(),
            total == weight_before(triples@, n as int),
            total <= n * 0xffff_ffff,
        decreases triples.len() - n,
    {
        proof {
            lemma_weight_before(triples@, n + 1);
            assert(n * 0xffff_ffff <= 0xffff_ffff_ffff_ffff * 0xffff_ffff) by (nonlinear_arith)
                requires
                    n <= 0xffff_ffff_ffff_ffff,
            ;
        }
        total = total + triples[n].1 as u128;
        n = n + 1;
    }
    if total == 0 {
        return None;
    }
    let point: u128 = (roll as u128) % total;
    let mut before: u128 = 0;
    let mut i: usize = 0;
    while i < triples.len()
        invariant
            i <= triples.len(),
            total == total_weight(triples@),
            total > 0,
            point == (roll as int) % total_weight(triples@),
            point < total,
            before == weight_before(triples@, i as int),
            before <= point,
        decreases triples.len() - i,
    {
        proof {
            lemma_weight_before(triples@, triples@.len() as int);
            lemma_weight_before(triples@, i + 1);
        }
        let next: u128 = before + triples[i].1 as u128;
        if point < next {
            return Some(triples[i].0);
        }
        before = next;
        i = i + 1;
    }
    proof {
        assert(false);
    }
    None
}

/// Whether a walk can step by `roll` from a node with these transitions
/// to `target`: some listing of the transitions has `target` picked.
pub open spec fn is_step(transitions: Map<i32, Transition>, roll: u64, target: i32) -> bool {
    exists|triples: Seq<(i32, u32, i64)>|
        lists(triples, transitions) && #[trigger] picks(triples, roll, target)
}

/// Whether a walk ends at a node with these transitions: none of them has
/// occurrences.
pub open spec fn is_end(transitions: Map<i32, Transition>) -> bool {
    forall|target: i32| #[trigger]
        transitions.contains_key(target) ==> transitions[target].occurrences == 0
}

/// The token at which the `k`-th step of a walk starts.
pub open spec fn step_start(start: i32, path: Seq<i32>, k: int) -> i32 {
    if k == 0 {
        start
    } else {
        path[k - 1]
    }
}

/// Whether `path` is a walk from `start` in one direction at time `now`:
/// step `k` goes by `rolls[k]` from the node as it is loaded; the walk is
/// no longer than the rolls and the maximum, and where it is shorter than
/// both, it has come to an end.
pub open spec fn is_walk(
    store: DatabaseView,
    direction: Direction,
    filter: BannedDictionaryView,
    start: i32,
    now: i64,
    rolls: Seq<u64>,
    path: Seq<i32>,
) -> bool {
    &&& path.len() <= MAX_WALK_STEPS
    &&& path.len() <= rolls.len()
    &&& forall|k: int|
        0 <= k < path.len() ==> is_step(
            loaded_node(store, direction, step_start(start, path, k), now, filter),
            rolls[k],
            #[trigger] path[k],
        )
    &&& path.len() < MAX_WALK_STEPS && path.len() < rolls.len() ==> is_end(
        loaded_node(store, direction, step_start(start, path, path.len() as int), now, filter),
    )
}

/// Walks from `start` in one direction at time `now`, one step for each of
/// `rolls`, until the maximum is reached or there is nowhere to go.
pub fn walk(
    database: &Database,
    direction: Direction,
    banned: &BannedDictionary,
    start: i32,
    now: i64,
    rolls: &Vec<u64>,
) -> (path: Vec<i32>)
    requires
        banned.wf(),
    ensures
        is_walk(database@, direction, banned@, start, now, rolls@, path@),
{
    broadcast use group_hash_axioms;
    let statistics = Statistics::new(direction);
    let mut path: Vec<i32> = Vec::new();
    let mut current = start;
    let mut k: usize = 0;
    while k < rolls.len() && k < MAX_WALK_STEPS
        invariant
            banned.wf(),
            statistics.direction() == direction,
            k == path@.len(),
            k <= rolls@.len(),
            k <= MAX_WALK_STEPS,
            current == step_start(start, path@, k as int),
            forall|j: int|
                0 <= j < path@.len() ==> is_step(
                    loaded_node(database@, direction, step_start(start, path@, j), now, banned@),
                    rolls@[j],
                    #[trigger] path@[j],
                ),
        decreases rolls.len() - k,
    {
        let mut wanted: Vec<i32> = Vec::new();
        wanted.push(current);
        assert(wanted@[0] == current);
        let nodes = statistics.get_nodes(database, banned, &wanted, now).unwrap();
        let ghost transitions = loaded_node(database@, direction, current, now, banned@);
        let next = match nodes.get(&current) {
            Some(node) => {
                let triples = node.triples();
                let picked = pick(&triples, rolls[k]);
                proof {
                    if picked is None {
                        lemma_weight_before(triples@, triples@.len() as int);
                        assert forall|target: i32| #[trigger]
                            transitions.contains_key(target) implies transitions[target].occurrences
                            == 0 by {
                            let i = choose|i: int|
                                0 <= i < triples@.len() && (#[trigger] triples@[i]).0 == target;
                            assert(transitions[triples@[i].0]
                                == crate::engine::model::model::triple_transition(triples@[i]));
                        }
                    } else {
                        assert(picks(triples@, rolls@[k as int], picked->0));
                    }
                }
                picked
            },
            None => {
                proof {
                    assert(wanted@.contains(current));
                    assert(database@.node(direction, current) is None);
                }
                None
            },
        };
        match next {
            Some(target) => {
                let ghost before = path@;
                path.push(target);
                proof {
                    assert forall|j: int| 0 <= j < path@.len() implies is_step(
                        loaded_node(
                            database@,
                            direction,
                            step_start(start, path@, j),
                            now,
                            banned@,
                        ),
                        rolls@[j],
                        #[trigger] path@[j],
                    ) by {
                        if j < before.len() {
                            assert(path@[j] == before[j]);
                            assert(step_start(start, path@, j) == step_start(start, before, j));
                        }
                    }
                }
                current = target;
                k = k + 1;
            },
            None => {
                return path;
            },
        }
    }
    path
}

/// Generation starts from at least this many keywords where the
/// dictionary has them: tokens chosen at random make up for what the seed
/// does not give.
pub const MINIMUM_KEYWORDS: usize = 1;

/// So many tokens are drawn from the dictionary to make up for missing
/// keywords.
pub const SAMPLE_SIZE: u8 = 255;

/// Whether a token of the seed can be a keyword: its text is not banned,
/// its id is not banned, and it is not among the tokens that are never
/// keywords.
pub open spec fn is_keyword(
    token: DictionaryTokenView,
    filter: BannedDictionaryView,
    non_keywords: Seq<Seq<char>>,
) -> bool {
    !filter.bans_text(token.text) && !filter.bans_id(token.id) && !non_keywords.contains(token.text)
}

/// The keywords that a seed gives: the ids of the tokens of its texts that
/// can be keywords, in the order of the dictionary.
pub open spec fn seed_keywords(
    store: DatabaseView,
    filter: BannedDictionaryView,
    non_keywords: Seq<Seq<char>>,
    seed: Seq<Seq<char>>,
) -> Seq<i32> {
    store.words_by_token(lowered(seed)).filter(
        |token: DictionaryTokenView| is_keyword(token, filter, non_keywords),
    ).map_values(|token: DictionaryTokenView| token.id)
}

/// Keywords made up to the minimum from `samples`, in their order: a
/// sample is taken while keywords are missing, unless it is banned or a
/// keyword already.
pub open spec fn padded_keywords(
    keywords: Seq<i32>,
    samples: Seq<(Seq<char>, i32)>,
    filter: BannedDictionaryView,
) -> Seq<i32>
    decreases samples.len(),
{
    if samples.len() == 0 {
        keywords
    } else {
        let before = padded_keywords(keywords, samples.drop_last(), filter);
        let id = samples.last().1;
        if before.len() < MINIMUM_KEYWORDS && !filter.bans_id(id) && !before.contains(id) {
            before.push(id)
        } else {
            before
        }
    }
}

/// The keywords from which a text is generated: those of the seed, made
/// up to the minimum from tokens drawn from the dictionary by `draw`.
pub open spec fn keywords_of(
    store: DatabaseView,
    filter: BannedDictionaryView,
    non_keywords: Seq<Seq<char>>,
    seed: Seq<Seq<char>>,
    draw: u64,
) -> Seq<i32> {
    padded_keywords(
        seed_keywords(store, filter, non_keywords, seed),
        store.random_words(SAMPLE_SIZE, draw),
        filter,
    )
}

/// Texts one after the other, a space between each two.
pub open spec fn joined(words: Seq<Seq<char>>) -> Seq<char>
    decreases words.len(),
{
    if words.len() == 0 {
        Seq::empty()
    } else if words.len() == 1 {
        words[0]
    } else {
        joined(words.drop_last()) + seq![' '] + words.last()
    }
}

/// How the tokens `ids` are written, one after the other.
pub open spec fn words_of(store: DatabaseView, ids: Seq<i32>) -> Seq<Seq<char>> {
    Seq::new(ids.len(), |i: int| row_token(store.dictionary[store.index_of_id(ids[i])]).written())
}

/// Whether `sentence` is what is said around `keyword`: a walk in reverse
/// from it, read backwards, the keyword, and a walk forward from it.
pub open spec fn is_sentence(
    store: DatabaseView,
    filter: BannedDictionaryView,
    keyword: i32,
    now: i64,
    forward_rolls: Seq<u64>,
    reverse_rolls: Seq<u64>,
    sentence: Seq<i32>,
) -> bool {
    exists|back: Seq<i32>, forth: Seq<i32>|
        {
            &&& is_walk(store, Direction::Reverse, filter, keyword, now, reverse_rolls, back)
            &&& is_walk(store, Direction::Forward, filter, keyword, now, forward_rolls, forth)
            &&& #[trigger] (back.reverse() + seq![keyword] + forth) == sentence
        }
}

/// Sentences one after the other.
pub open spec fn flattened(sentences: Seq<Seq<i32>>) -> Seq<i32>
    decreases sentences.len(),
{
    if sentences.len() == 0 {
        Seq::empty()
    } else {
        flattened(sentences.drop_last()) + sentences.last()
    }
}

/// Whether `ids` is what is said for `keywords`: a sentence around each of
/// them, one after the other.
pub open spec fn is_utterance(
    store: DatabaseView,
    filter: BannedDictionaryView,
    keywords: Seq<i32>,
    now: i64,
    forward_rolls: Seq<u64>,
    reverse_rolls: Seq<u64>,
    ids: Seq<i32>,
) -> bool {
    exists|sentences: Seq<Seq<i32>>|
        {
            &&& sentences.len() == keywords.len()
            &&& forall|k: int|
                0 <= k < keywords.len() ==> is_sentence(
                    store,
                    filter,
                    keywords[k],
                    now,
                    forward_rolls,
                    reverse_rolls,
                    #[trigger] sentences[k],
                )
            &&& #[trigger] flattened(sentences) == ids
        }
}

/// A generated text taken as its characters.
pub open spec fn said(r: Result<Option<String>, EngineError>) -> Result<
    Option<Seq<char>>,
    EngineError,
> {
    match r {
        Ok(Some(text)) => Ok(Some(text@)),
        Ok(None) => Ok(None),
        Err(e) => Err(e),
    }
}

/// Whether `r` is what generating from `seed` in a store gives: nothing
/// where there are no keywords; else the words of a sentence around each
/// keyword, a space between each two; and `NotFound` where a walk met a
/// token that the dictionary does not hold.
pub open spec fn generates(
    store: DatabaseView,
    generic: Seq<Seq<char>>,
    non_keywords: Seq<Seq<char>>,
    seed: Seq<Seq<char>>,
    now: i64,
    draw: u64,
    forward_rolls: Seq<u64>,
    reverse_rolls: Seq<u64>,
    r: Result<Option<Seq<char>>, EngineError>,
) -> bool {
    let filter = filter_of(store, generic);
    let keywords = keywords_of(store, filter, non_keywords, seed, draw);
    match r {
        Ok(None) => keywords.len() == 0,
        Ok(Some(text)) => keywords.len() > 0 && exists|ids: Seq<i32>|
            {
                &&& #[trigger] is_utterance(
                    store,
                    filter,
                    keywords,
                    now,
                    forward_rolls,
                    reverse_rolls,
                    ids,
                )
                &&& forall|i: int| 0 <= i < ids.len() ==> store.has_id(#[trigger] ids[i])
                &&& text == joined(words_of(store, ids))
            },
        Err(e) => e == EngineError::NotFound && keywords.len() > 0 && exists|ids: Seq<i32>|
            {
                &&& #[trigger] is_utterance(
                    store,
                    filter,
                    keywords,
                    now,
                    forward_rolls,
                    reverse_rolls,
                    ids,
                )
                &&& exists|i: int| 0 <= i < ids.len() && !store.has_id(#[trigger] ids[i])
            },
    }
}

/// The keywords that `seed` gives.
fn primary_keywords(
    database: &Database,
    dictionary: &Dictionary,
    banned: &BannedDictionary,
    seed: &Vec<String>,
) -> (keywords: Vec<i32>)
    requires
        banned.wf(),
    ensures
        keywords@ == seed_keywords(
            database@,
            banned@,
            dictionary.non_keywords(),
            texts_of(seed@),
        ),
{
    let tokens = dictionary.lookup_by_text(database, seed).unwrap();
    let ghost all = token_views(tokens@);
    let ghost usable = |token: DictionaryTokenView|
        is_keyword(token, banned@, dictionary.non_keywords());
    let ghost id_of = |token: DictionaryTokenView| token.id;
    let mut keywords: Vec<i32> = Vec::new();
    let mut i: usize = 0;
    proof {
        assert(all.take(0) =~= Seq::empty());
        assert(keywords@ =~= all.take(0).filter(usable).map_values(id_of));
    }
    while i < tokens.len()
        invariant
            banned.wf(),
            i <= tokens.len(),
            all == token_views(tokens@),
            usable == |token: DictionaryTokenView|
                is_keyword(token, banned@, dictionary.non_keywords()),
            id_of == |token: DictionaryTokenView| token.id,
            keywords@ == all.take(i as int).filter(usable).map_values(id_of),
        decreases tokens.len() - i,
    {
        let token = &tokens[i];
        let text = token.get_case_insensitive_representation();
        let id = *token.get_id();
        proof {
            lemma_filter_step(all, usable, i as int);
            assert(all[i as int] == token@);
        }
        if !banned.is_text_banned(text.as_str()) && !banned.is_id_banned(id)
            && !dictionary.is_non_keyword(text) {
            let ghost before = keywords@;
            keywords.push(id);
            proof {
                let kept = all.take(i as int).filter(usable);
                assert(kept.push(all[i as int]).map_values(id_of) =~= kept.map_values(id_of).push(
                    id,
                ));
            }
        }
        i = i + 1;
    }
    proof {
        assert(all.take(i as int) =~= all);
    }
    keywords
}

/// Whether `id` is one of `ids`.
fn listed(ids: &Vec<i32>, id: i32) -> (found: bool)
    ensures
        found == ids@.contains(id),
{
    let mut j: usize = 0;
    while j < ids.len()
        invariant
            j <= ids.len(),
            forall|k: int| 0 <= k < j ==> ids@[k] != id,
        decreases ids.len() - j,
    {
        if ids[j] == id {
            return true;
        }
        j = j + 1;
    }
    false
}

/// The keywords from which a text is generated: those of `seed`, made up
/// to the minimum from tokens drawn from the dictionary by `draw`.
pub fn keywords(
    database: &Database,
    dictionary: &Dictionary,
    banned: &BannedDictionary,
    seed: &Vec<String>,
    draw: u64,
) -> (keywords: Vec<i32>)
    requires
        banned.wf(),
    ensures
        keywords@ == keywords_of(
            database@,
            banned@,
            dictionary.non_keywords(),
            texts_of(seed@),
            draw,
        ),
{
    let mut keywords = primary_keywords(database, dictionary, banned, seed);
    let samples = dictionary.sample_random(database, SAMPLE_SIZE, draw).unwrap();
    let ghost given = keywords@;
    let ghost drawn = crate::engine::model::database::pair_views(samples@);
    let mut i: usize = 0;
    proof {
        assert(drawn.take(0) =~= Seq::empty());
    }
    while i < samples.len()
        invariant
            banned.wf(),
            i <= samples.len(),
            drawn == crate::engine::model::database::pair_views(samples@),
            keywords@ == padded_keywords(given, drawn.take(i as int), banned@),
        decreases samples.len() - i,
    {
        let id = samples[i].1;
        proof {
            assert(drawn.take(i + 1).drop_last() =~= drawn.take(i as int));
            assert(drawn.take(i + 1).last() == drawn[i as int]);
        }
        if keywords.len() < MINIMUM_KEYWORDS && !banned.is_id_banned(id) && !listed(&keywords, id) {
            keywords.push(id);
        }
        i = i + 1;
    }
    proof {
        assert(drawn.take(i as int) =~= drawn);
    }
    keywords
}

/// Writes the tokens `ids` one after the other, a space between each two.
/// Only the first is written as the first of a sentence. An id that the
/// dictionary does not hold is a fault of the graph: `NotFound`.
pub fn render_all(database: &Database, dictionary: &Dictionary, ids: &Vec<i32>) -> (r: Result<
    String,
    EngineError,
>)
    requires
        database.wf(),
    ensures
        match r {
            Ok(text) => (forall|i: int| 0 <= i < ids@.len() ==> database@.has_id(#[trigger] ids@[i]))
                && text@ == joined(words_of(database@, ids@)),
            Err(e) => e == EngineError::NotFound && exists|i: int|
                0 <= i < ids@.len() && !database@.has_id(#[trigger] ids@[i]),
        },
{
    let ghost words = words_of(database@, ids@);
    let mut text = String::new();
    let mut i: usize = 0;
    proof {
        assert(words.take(0) =~= Seq::empty());
    }
    while i < ids.len()
        invariant
            database.wf(),
            i <= ids.len(),
            words == words_of(database@, ids@),
            forall|j: int| 0 <= j < i ==> database@.has_id(#[trigger] ids@[j]),
            text@ == joined(words.take(i as int)),
        decreases ids.len() - i,
    {
        let word = match dictionary.render(database, ids[i], i == 0) {
            Ok(word) => word,
            Err(e) => {
                return Err(e);
            },
        };
        proof {
            assert(words.take(i + 1).drop_last() =~= words.take(i as int));
            assert(words.take(i + 1).last() == word@);
            if i == 0 {
                assert(words.take(1)[0] == word@);
                assert(Seq::<char>::empty() + word@ =~= word@);
            }
        }
        if i > 0 {
            text.push(' ');
        }
        text.append(word.as_str());
        proof {
            if i > 0 {
                assert(text@ =~= joined(words.take(i as int)) + seq![' '] + word@);
            }
        }
        i = i + 1;
    }
    proof {
        assert(words.take(i as int) =~= words);
    }
    Ok(text)
}

/// What is said around `keyword`: a walk in reverse from it, read
/// backwards, the keyword, and a walk forward from it.
pub fn sentence(
    database: &Database,
    banned: &BannedDictionary,
    keyword: i32,
    now: i64,
    forward_rolls: &Vec<u64>,
    reverse_rolls: &Vec<u64>,
) -> (ids: Vec<i32>)
    requires
        banned.wf(),
    ensures
        is_sentence(database@, banned@, keyword, now, forward_rolls@, reverse_rolls@, ids@),
{
    let back = walk(database, Direction::Reverse, banned, keyword, now, reverse_rolls);
    let forth = walk(database, Direction::Forward, banned, keyword, now, forward_rolls);
    let mut ids: Vec<i32> = Vec::new();
    let mut i: usize = back.len();
    while i > 0
        invariant
            i <= back.len(),
            ids@.len() == back.len() - i,
            forall|k: int| 0 <= k < ids@.len() ==> ids@[k] == back@[back.len() - 1 - k],
        decreases i,
    {
        i = i - 1;
        ids.push(back[i]);
    }
    assert(ids@ =~= back@.reverse());
    ids.push(keyword);
    let mut j: usize = 0;
    while j < forth.len()
        invariant
            j <= forth.len(),
            ids@ == back@.reverse() + seq![keyword] + forth@.take(j as int),
        decreases forth.len() - j,
    {
        ids.push(forth[j]);
        proof {
            assert(forth@.take(j + 1) =~= forth@.take(j as int).push(forth@[j as int]));
            assert(ids@ =~= back@.reverse() + seq![keyword] + forth@.take(j + 1));
        }
        j = j + 1;
    }
    proof {
        assert(forth@.take(j as int) =~= forth@);
        assert((back@.reverse() + seq![keyword] + forth@) == ids@);
    }
    ids
}

/// Generates a text from `seed` at time `now`. The keywords are those of
/// the seed, made up from tokens drawn by `draw`; around each keyword
/// stands a sentence of two walks, which step by `reverse_rolls` and
/// `forward_rolls`; the sentences are written one after the other. Without
/// keywords there is nothing to say: `None`.
pub fn generate(
    database: &Database,
    dictionary: &Dictionary,
    banned_tokens_generic: &Vec<String>,
    seed: &Vec<String>,
    now: i64,
    draw: u64,
    forward_rolls: &Vec<u64>,
    reverse_rolls: &Vec<u64>,
) -> (r: Result<Option<String>, EngineError>)
    requires
        database.wf(),
    ensures
        generates(
            database@,
            texts_of(banned_tokens_generic@),
            dictionary.non_keywords(),
            texts_of(seed@),
            now,
            draw,
            forward_rolls@,
            reverse_rolls@,
            said(r),
        ),
{
    let banned = match BannedDictionary::new(database, banned_tokens_generic) {
        Ok(banned) => banned,
        Err(e) => {
            return Err(e);
        },
    };
    assert(banned@ == filter_of(database@, texts_of(banned_tokens_generic@)));
    let chosen = keywords(database, dictionary, &banned, seed, draw);
    if chosen.len() == 0 {
        return Ok(None);
    }
    let ghost mut sentences: Seq<Seq<i32>> = Seq::empty();
    let mut ids: Vec<i32> = Vec::new();
    let mut k: usize = 0;
    while k < chosen.len()
        invariant
            banned.wf(),
            k <= chosen.len(),
            sentences.len() == k,
            forall|j: int|
                0 <= j < k ==> is_sentence(
                    database@,
                    banned@,
                    chosen@[j],
                    now,
                    forward_rolls@,
                    reverse_rolls@,
                    #[trigger] sentences[j],
                ),
            ids@ == flattened(sentences),
        decreases chosen.len() - k,
    {
        let spoken = sentence(database, &banned, chosen[k], now, forward_rolls, reverse_rolls);
        let ghost before = sentences;
        proof {
            sentences = sentences.push(spoken@);
            assert(sentences.drop_last() =~= before);
        }
        let mut j: usize = 0;
        while j < spoken.len()
            invariant
                j <= spoken.len(),
                ids@ == flattened(before) + spoken@.take(j as int),
            decreases spoken.len() - j,
        {
            ids.push(spoken[j]);
            proof {
                assert(spoken@.take(j + 1) =~= spoken@.take(j as int).push(spoken@[j as int]));
                assert(ids@ =~= flattened(before) + spoken@.take(j + 1));
            }
            j = j + 1;
        }
        proof {
            assert(spoken@.take(j as int) =~= spoken@);
        }
        k = k + 1;
    }
    proof {
        assert(is_utterance(
            database@,
            banned@,
            chosen@,
            now,
            forward_rolls@,
            reverse_rolls@,
            ids@,
        ));
    }
    match render_all(database, dictionary, &ids) {
        Ok(text) => Ok(Some(text)),
        Err(e) => Err(e),
    }
}

} // verus!
