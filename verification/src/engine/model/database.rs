//! The store of one context: the dictionary table, the banned table and the
//! two tables of encoded nodes, held in memory.

use crate::engine::model::banned_dictionary::BannedToken;
use crate::engine::model::banned_dictionary::BannedTokenView;
use crate::engine::model::codec::blob_of_forms;
use crate::engine::model::codec::blob_of_triples;
use crate::engine::model::codec::decode_forms;
use crate::engine::model::codec::decode_transitions;
use crate::engine::model::codec::encode_forms;
use crate::engine::model::codec::encode_transitions;
use crate::engine::model::codec::forms_view;
use crate::engine::model::codec::stored_triples;
use crate::engine::model::codec::stored_forms;
use crate::engine::model::dictionary::DictionaryToken;
use crate::engine::model::dictionary::DictionaryTokenView;
use crate::engine::model::error::EngineError;
use crate::engine::model::model::lists;
use crate::engine::model::model::node_of;
use crate::engine::model::model::Node;
use crate::engine::model::model::Transition;
use crate::engine::model::sequences::lemma_filter_keeps;
use crate::engine::model::sequences::lemma_filter_step;
use crate::engine::model::text::contains;
use crate::engine::model::text::str_contains;
use crate::engine::model::text::text_in;
use crate::engine::model::text::texts_of;
use std::collections::HashMap;
use vstd::prelude::*;
use vstd::std_specs::hash::*;

verus! {

/// The direction of a table of nodes: `Forward` holds, for each token, the
/// tokens that followed it; `Reverse` those that came before it.
#[derive(Clone, Copy, Debug, PartialEq, Eq, Structural)]
pub enum Direction {
    Forward,
    Reverse,
}

/// One row of the dictionary table.
struct DictionaryRow {
    text: String,
    id: i32,
    occurrences: u32,
    forms: Option<Vec<u8>>,
}

/// What a row of the dictionary table holds: the token's lower-case text,
/// its id, its occurrence count and the blob of its capitalised forms.
pub struct RowView {
    pub text: Seq<char>,
    pub id: i32,
    pub occurrences: u32,
    pub forms: Option<Seq<u8>>,
}

impl DictionaryRow {
    spec fn view(&self) -> RowView {
        RowView {
            text: self.text@,
            id: self.id,
            occurrences: self.occurrences,
            forms: match self.forms {
                Some(blob) => Some(blob@),
                None => None,
            },
        }
    }
}

/// Whether one of `rows` holds this text.
pub open spec fn rows_have_text(rows: Seq<RowView>, text: Seq<char>) -> bool {
    exists|i: int| 0 <= i < rows.len() && (#[trigger] rows[i]).text == text
}

/// Whether one of `rows` holds this id.
pub open spec fn rows_have_id(rows: Seq<RowView>, id: i32) -> bool {
    exists|i: int| 0 <= i < rows.len() && (#[trigger] rows[i]).id == id
}

/// The position of the row that holds this text.
pub open spec fn rows_index_of_text(rows: Seq<RowView>, text: Seq<char>) -> int {
    choose|i: int| 0 <= i < rows.len() && (#[trigger] rows[i]).text == text
}

/// The position of the row that holds this id.
pub open spec fn rows_index_of_id(rows: Seq<RowView>, id: i32) -> int {
    choose|i: int| 0 <= i < rows.len() && (#[trigger] rows[i]).id == id
}

/// No text and no id stands in two rows.
pub open spec fn rows_distinct(rows: Seq<RowView>) -> bool {
    &&& forall|i: int, j: int|
        0 <= i < j < rows.len() ==> (#[trigger] rows[i]).text != (#[trigger] rows[j]).text
    &&& forall|i: int, j: int|
        0 <= i < j < rows.len() ==> (#[trigger] rows[i]).id != (#[trigger] rows[j]).id
}

/// The row under which a token is stored. Without capitalised forms the
/// column of forms is empty; else it holds their blob, and where they do
/// not encode there is no row.
pub open spec fn word_row(token: DictionaryTokenView) -> Option<RowView> {
    if token.forms.len() == 0 {
        Some(
            RowView { text: token.text, id: token.id, occurrences: token.occurrences, forms: None },
        )
    } else {
        match blob_of_forms(token.forms) {
            Some(blob) => Some(
                RowView {
                    text: token.text,
                    id: token.id,
                    occurrences: token.occurrences,
                    forms: Some(blob),
                },
            ),
            None => None,
        }
    }
}

/// The rows under which tokens are stored, where each of them encodes.
pub open spec fn word_rows(tokens: Seq<DictionaryTokenView>) -> Option<Seq<RowView>>
    decreases tokens.len(),
{
    if tokens.len() == 0 {
        Some(Seq::empty())
    } else {
        match (word_rows(tokens.drop_last()), word_row(tokens.last())) {
            (Some(rows), Some(row)) => Some(rows.push(row)),
            _ => None,
        }
    }
}

/// The dictionary table after storing one row. A row of the same id has its
/// occurrence count and forms replaced and keeps its text. Else the row is
/// added, unless its text is taken: then the table refuses it.
pub open spec fn upserted(rows: Seq<RowView>, word: RowView) -> Option<Seq<RowView>> {
    if rows_have_id(rows, word.id) {
        let i = rows_index_of_id(rows, word.id);
        Some(rows.update(i, RowView { occurrences: word.occurrences, forms: word.forms, ..rows[i] }))
    } else if rows_have_text(rows, word.text) {
        None
    } else {
        Some(rows.push(word))
    }
}

/// The dictionary table after storing `words` one by one, where it refuses
/// none of them.
pub open spec fn upserted_all(rows: Seq<RowView>, words: Seq<RowView>) -> Option<Seq<RowView>>
    decreases words.len(),
{
    if words.len() == 0 {
        Some(rows)
    } else {
        match upserted_all(rows, words.drop_last()) {
            Some(before) => upserted(before, words.last()),
            None => None,
        }
    }
}

/// The dictionary table with the capitalised forms of the tokens `ids`
/// forgotten.
pub open spec fn scrubbed_rows(rows: Seq<RowView>, ids: Seq<i32>) -> Seq<RowView> {
    Seq::new(
        rows.len(),
        |i: int|
            if ids.contains(rows[i].id) {
                RowView { forms: None, ..rows[i] }
            } else {
                rows[i]
            },
    )
}

/// A table of nodes after one change: a blob is stored under its id, and
/// without a blob the row of that id is deleted.
pub open spec fn put(table: Map<i32, Seq<u8>>, change: (i32, Option<Seq<u8>>)) -> Map<
    i32,
    Seq<u8>,
> {
    match change.1 {
        Some(blob) => table.insert(change.0, blob),
        None => table.remove(change.0),
    }
}

/// A table of nodes after `changes`, one by one.
pub open spec fn put_all(table: Map<i32, Seq<u8>>, changes: Seq<(i32, Option<Seq<u8>>)>) -> Map<
    i32,
    Seq<u8>,
>
    decreases changes.len(),
{
    if changes.len() == 0 {
        table
    } else {
        put(put_all(table, changes.drop_last()), changes.last())
    }
}

/// Where the changes end in deletions only, and one of these names `id`,
/// the table has no row of `id` afterwards.
pub proof fn lemma_put_all_deleted(
    table: Map<i32, Seq<u8>>,
    changes: Seq<(i32, Option<Seq<u8>>)>,
    from: int,
    id: i32,
)
    requires
        0 <= from <= changes.len(),
        forall|k: int| from <= k < changes.len() ==> (#[trigger] changes[k]).1 is None,
        exists|k: int| from <= k < changes.len() && (#[trigger] changes[k]).0 == id,
    ensures
        !put_all(table, changes).contains_key(id),
    decreases changes.len(),
{
    let last = changes.last();
    assert(changes[changes.len() - 1].1 is None);
    if last.0 != id {
        let front = changes.drop_last();
        let k = choose|k: int| from <= k < changes.len() && (#[trigger] changes[k]).0 == id;
        assert(front[k] == changes[k]);
        assert forall|j: int| from <= j < front.len() implies (#[trigger] front[j]).1 is None by {
            assert(front[j] == changes[j]);
        }
        lemma_put_all_deleted(table, front, from, id);
    }
}

/// Changes of a table of nodes with each blob taken as its bytes.
pub open spec fn change_views(changes: Seq<(i32, Option<Vec<u8>>)>) -> Seq<(i32, Option<Seq<u8>>)> {
    Seq::new(
        changes.len(),
        |i: int|
            (
                changes[i].0,
                match changes[i].1 {
                    Some(blob) => Some(blob@),
                    None => None,
                },
            ),
    )
}

/// Whether `change` stores `node` under `id`: an empty node deletes the
/// row, any other is stored as the blob of a listing of its transitions.
pub open spec fn stores_node(
    change: (i32, Option<Seq<u8>>),
    id: i32,
    node: Map<i32, Transition>,
) -> bool {
    &&& change.0 == id
    &&& match change.1 {
        Some(blob) => node.len() > 0 && exists|triples: Seq<(i32, u32, i64)>|
            lists(triples, node) && #[trigger] blob_of_triples(triples) == Some(blob),
        None => node.len() == 0,
    }
}

/// Where a first part of the tokens does not encode, the whole does not.
pub proof fn lemma_word_rows_prefix(tokens: Seq<DictionaryTokenView>, k: int)
    requires
        0 <= k <= tokens.len(),
        word_rows(tokens.take(k)) is None,
    ensures
        word_rows(tokens) is None,
    decreases tokens.len(),
{
    if k == tokens.len() {
        assert(tokens.take(k) =~= tokens);
    } else {
        assert(tokens.drop_last().take(k) =~= tokens.take(k));
        lemma_word_rows_prefix(tokens.drop_last(), k);
    }
}

/// Where the table refuses a first part of the rows, it refuses the whole.
pub proof fn lemma_upserted_all_prefix(rows: Seq<RowView>, words: Seq<RowView>, k: int)
    requires
        0 <= k <= words.len(),
        upserted_all(rows, words.take(k)) is None,
    ensures
        upserted_all(rows, words) is None,
    decreases words.len(),
{
    if k == words.len() {
        assert(words.take(k) =~= words);
    } else {
        assert(words.drop_last().take(k) =~= words.take(k));
        lemma_upserted_all_prefix(rows, words.drop_last(), k);
    }
}

/// Storing a row keeps texts and ids apart and loses no id.
pub proof fn lemma_upserted(rows: Seq<RowView>, word: RowView)
    requires
        rows_distinct(rows),
        upserted(rows, word) is Some,
    ensures
        rows_distinct(upserted(rows, word)->0),
        forall|id: i32| rows_have_id(rows, id) ==> rows_have_id(upserted(rows, word)->0, id),
        rows_have_id(upserted(rows, word)->0, word.id),
{
    let after = upserted(rows, word)->0;
    if rows_have_id(rows, word.id) {
        let i = rows_index_of_id(rows, word.id);
        assert forall|a: int, b: int| 0 <= a < b < after.len() implies (#[trigger] after[a]).text
            != (#[trigger] after[b]).text by {
            assert(after[a].text == rows[a].text);
            assert(after[b].text == rows[b].text);
        }
        assert forall|a: int, b: int| 0 <= a < b < after.len() implies (#[trigger] after[a]).id != (
        #[trigger] after[b]).id by {
            assert(after[a].id == rows[a].id);
            assert(after[b].id == rows[b].id);
        }
        assert forall|id: i32| rows_have_id(rows, id) implies rows_have_id(after, id) by {
            let k = rows_index_of_id(rows, id);
            assert(after[k].id == id);
        }
    } else {
        assert forall|a: int, b: int| 0 <= a < b < after.len() implies (#[trigger] after[a]).text
            != (#[trigger] after[b]).text by {
            assert(after[a] == rows[a]);
            if b < rows.len() {
                assert(after[b] == rows[b]);
            }
        }
        assert forall|a: int, b: int| 0 <= a < b < after.len() implies (#[trigger] after[a]).id != (
        #[trigger] after[b]).id by {
            assert(after[a] == rows[a]);
            if b < rows.len() {
                assert(after[b] == rows[b]);
            }
        }
        assert forall|id: i32| rows_have_id(rows, id) implies rows_have_id(after, id) by {
            let k = rows_index_of_id(rows, id);
            assert(after[k].id == id);
        }
        assert(after[rows.len() as int].id == word.id);
    }
}

/// Whether a store may refuse to store `node` under `id`: the node has
/// transitions, and the dictionary does not hold the id or a listing of
/// the transitions does not encode.
pub open spec fn refuses_node(store: DatabaseView, id: i32, node: Map<i32, Transition>) -> bool {
    node.len() > 0 && (!store.has_id(id) || exists|triples: Seq<(i32, u32, i64)>|
        lists(triples, node) && #[trigger] blob_of_triples(triples) is None)
}

/// What a store holds.
pub struct DatabaseView {
    pub dictionary: Seq<RowView>,
    pub banned: Seq<Seq<char>>,
    pub forward: Map<i32, Seq<u8>>,
    pub reverse: Map<i32, Seq<u8>>,
}

impl DatabaseView {
    /// The store without any row.
    pub open spec fn empty() -> DatabaseView {
        DatabaseView {
            dictionary: Seq::empty(),
            banned: Seq::empty(),
            forward: Map::empty(),
            reverse: Map::empty(),
        }
    }

    /// Whether the dictionary has a token of this text.
    pub open spec fn has_text(self, text: Seq<char>) -> bool {
        rows_have_text(self.dictionary, text)
    }

    /// Whether the dictionary has a token of this id.
    pub open spec fn has_id(self, id: i32) -> bool {
        rows_have_id(self.dictionary, id)
    }

    /// The position of the token of this text.
    pub open spec fn index_of_text(self, text: Seq<char>) -> int {
        rows_index_of_text(self.dictionary, text)
    }

    /// The position of the token of this id.
    pub open spec fn index_of_id(self, id: i32) -> int {
        rows_index_of_id(self.dictionary, id)
    }

    /// The id of the token of this text, if there is one.
    pub open spec fn id_of(self, text: Seq<char>) -> Option<i32> {
        if self.has_text(text) {
            Some(self.dictionary[self.index_of_text(text)].id)
        } else {
            None
        }
    }

    /// The table of nodes of one direction.
    pub open spec fn table(self, direction: Direction) -> Map<i32, Seq<u8>> {
        match direction {
            Direction::Forward => self.forward,
            Direction::Reverse => self.reverse,
        }
    }

    /// The constraints of the store: no text and no id twice in the
    /// dictionary, no text twice in the banned table, and no node but of a
    /// token of the dictionary.
    pub open spec fn wf(self) -> bool {
        &&& rows_distinct(self.dictionary)
        &&& self.banned.no_duplicates()
        &&& self.forward.dom().finite()
        &&& self.reverse.dom().finite()
        &&& forall|id: i32| #[trigger] self.forward.contains_key(id) ==> self.has_id(id)
        &&& forall|id: i32| #[trigger] self.reverse.contains_key(id) ==> self.has_id(id)
    }

    /// The node stored for `id` in one direction: none where there is no
    /// row or its blob does not decode.
    pub open spec fn node(self, direction: Direction, id: i32) -> Option<Map<i32, Transition>> {
        if self.table(direction).contains_key(id) {
            match stored_triples(self.table(direction)[id]) {
                Some(triples) => Some(node_of(triples)),
                None => None,
            }
        } else {
            None
        }
    }

    /// The store with the table of one direction replaced.
    pub open spec fn with_table(self, direction: Direction, table: Map<i32, Seq<u8>>) -> DatabaseView {
        match direction {
            Direction::Forward => DatabaseView { forward: table, ..self },
            Direction::Reverse => DatabaseView { reverse: table, ..self },
        }
    }

    /// A banned text with the id of the token of that text.
    pub open spec fn banned_entry(self, text: Seq<char>) -> BannedTokenView {
        BannedTokenView { text, dictionary_id: self.id_of(text) }
    }

    /// The banned texts, each with the id of its token: all of them, or
    /// those among `tokens`, in the order of the table.
    pub open spec fn banned_entries(self, tokens: Option<Seq<Seq<char>>>) -> Seq<BannedTokenView> {
        self.banned.filter(
            |text: Seq<char>|
                match tokens {
                    Some(wanted) => wanted.contains(text),
                    None => true,
                },
        ).map_values(|text: Seq<char>| self.banned_entry(text))
    }
}

/// Whether one of `substrings` is a part of `text`.
pub open spec fn contains_any(text: Seq<char>, substrings: Seq<Seq<char>>) -> bool {
    exists|j: int| 0 <= j < substrings.len() && contains(text, #[trigger] substrings[j])
}

/// The capitalised forms that a row holds: none where the column is empty
/// or its blob does not decode.
pub open spec fn row_forms(row: RowView) -> Seq<(Seq<char>, u32)> {
    match row.forms {
        Some(blob) => match stored_forms(blob) {
            Some(forms) => forms,
            None => Seq::empty(),
        },
        None => Seq::empty(),
    }
}

/// The token that a row of the dictionary table holds.
pub open spec fn row_token(row: RowView) -> DictionaryTokenView {
    DictionaryTokenView {
        id: row.id,
        occurrences: row.occurrences,
        text: row.text,
        forms: row_forms(row),
    }
}

/// The text and id that a row of the dictionary table holds.
pub open spec fn row_pair(row: RowView) -> (Seq<char>, i32) {
    (row.text, row.id)
}

/// The views of a sequence of tokens.
pub open spec fn token_views(tokens: Seq<DictionaryToken>) -> Seq<DictionaryTokenView> {
    Seq::new(tokens.len(), |i: int| tokens[i]@)
}

/// Pairs of text and id with each text taken as its characters.
pub open spec fn pair_views(pairs: Seq<(String, i32)>) -> Seq<(Seq<char>, i32)> {
    Seq::new(pairs.len(), |i: int| (pairs[i].0@, pairs[i].1))
}

/// The position `steps` after `start` in a table of `len` rows, going round
/// at its end.
pub open spec fn rotated(start: int, steps: int, len: int) -> int {
    if start + steps < len {
        start + steps
    } else {
        start + steps - len
    }
}

/// The id that the next new token gets: one more than the highest id in
/// use, and the lowest id of all in an empty dictionary.
pub open spec fn next_identifier(rows: Seq<RowView>) -> int
    decreases rows.len(),
{
    if rows.len() == 0 {
        i32::MIN as int
    } else {
        let before = next_identifier(rows.drop_last());
        if rows.last().id + 1 > before {
            rows.last().id + 1
        } else {
            before
        }
    }
}

/// The next id lies above every id in use, and directly above one of them
/// unless the dictionary is empty.
pub proof fn lemma_next_identifier(rows: Seq<RowView>)
    ensures
        forall|i: int| 0 <= i < rows.len() ==> (#[trigger] rows[i]).id < next_identifier(rows),
        rows.len() == 0 ==> next_identifier(rows) == i32::MIN,
        rows.len() > 0 ==> exists|i: int|
            0 <= i < rows.len() && (#[trigger] rows[i]).id + 1 == next_identifier(rows),
        i32::MIN <= next_identifier(rows) <= i32::MAX + 1,
    decreases rows.len(),
{
    if rows.len() > 0 {
        let front = rows.drop_last();
        lemma_next_identifier(front);
        assert forall|i: int| 0 <= i < rows.len() implies (#[trigger] rows[i]).id
            < next_identifier(rows) by {
            if i < front.len() {
                assert(front[i] == rows[i]);
            }
        }
        if rows.last().id + 1 > next_identifier(front) {
            assert(rows[rows.len() - 1].id + 1 == next_identifier(rows));
        } else {
            let i = choose|i: int|
                0 <= i < front.len() && (#[trigger] front[i]).id + 1 == next_identifier(front);
            assert(rows[i] == front[i]);
        }
    }
}

impl DatabaseView {
    /// The text and id of every token whose text has one of `substrings` as
    /// a part, in the order of the table.
    pub open spec fn words_by_substring(self, substrings: Seq<Seq<char>>) -> Seq<(Seq<char>, i32)> {
        self.dictionary.filter(|row: RowView| contains_any(row.text, substrings)).map_values(
            |row: RowView| row_pair(row),
        )
    }

    /// The tokens whose text is among `tokens`, in the order of the table.
    pub open spec fn words_by_token(self, tokens: Seq<Seq<char>>) -> Seq<DictionaryTokenView> {
        self.dictionary.filter(|row: RowView| tokens.contains(row.text)).map_values(
            |row: RowView| row_token(row),
        )
    }

    /// The tokens whose id is among `ids`, in the order of the table.
    pub open spec fn words_by_id(self, ids: Seq<i32>) -> Seq<DictionaryTokenView> {
        self.dictionary.filter(|row: RowView| ids.contains(row.id)).map_values(
            |row: RowView| row_token(row),
        )
    }

    /// The text and id of `count` tokens, or of all where there are fewer:
    /// those that follow each other in the table from position
    /// `seed % len`, going round at its end.
    pub open spec fn random_words(self, count: u8, seed: u64) -> Seq<(Seq<char>, i32)> {
        let len = self.dictionary.len() as int;
        if len == 0 {
            Seq::empty()
        } else {
            Seq::new(
                if count < len {
                    count as nat
                } else {
                    len as nat
                },
                |i: int| row_pair(self.dictionary[rotated((seed % (len as u64)) as int, i, len)]),
            )
        }
    }
}

/// The banned table after banning `tokens` one by one: a text that is
/// already there is not added again.
pub open spec fn with_banned(banned: Seq<Seq<char>>, tokens: Seq<Seq<char>>) -> Seq<Seq<char>>
    decreases tokens.len(),
{
    if tokens.len() == 0 {
        banned
    } else {
        let before = with_banned(banned, tokens.drop_last());
        if before.contains(tokens.last()) {
            before
        } else {
            before.push(tokens.last())
        }
    }
}

/// The banned table without the texts among `tokens`.
pub open spec fn without_banned(banned: Seq<Seq<char>>, tokens: Seq<Seq<char>>) -> Seq<Seq<char>> {
    banned.filter(|text: Seq<char>| !tokens.contains(text))
}

/// The views of a sequence of banned tokens.
pub open spec fn banned_views(tokens: Seq<BannedToken>) -> Seq<BannedTokenView> {
    Seq::new(tokens.len(), |i: int| tokens[i]@)
}

/// The store of one context.
pub struct Database {
    dictionary: Vec<DictionaryRow>,
    banned: Vec<String>,
    forward: HashMap<i32, Vec<u8>>,
    reverse: HashMap<i32, Vec<u8>>,
}

/// What the rows of a dictionary table hold.
spec fn rows_view(rows: Seq<DictionaryRow>) -> Seq<RowView> {
    Seq::new(rows.len(), |i: int| rows[i].view())
}

/// The blobs of a table of nodes.
spec fn blobs_of(table: Map<i32, Vec<u8>>) -> Map<i32, Seq<u8>> {
    Map::new(|id: i32| table.contains_key(id), |id: i32| table[id]@)
}

impl View for Database {
    type V = DatabaseView;

    closed spec fn view(&self) -> DatabaseView {
        DatabaseView {
            dictionary: rows_view(self.dictionary@),
            banned: texts_of(self.banned@),
            forward: blobs_of(self.forward@),
            reverse: blobs_of(self.reverse@),
        }
    }
}

impl Clone for Database {
    fn clone(&self) -> (copy: Database)
        ensures
            copy@ == self@,
    {
        let mut dictionary: Vec<DictionaryRow> = Vec::new();
        let mut i: usize = 0;
        while i < self.dictionary.len()
            invariant
                i <= self.dictionary.len(),
                rows_view(dictionary@) == self@.dictionary.take(i as int),
            decreases self.dictionary.len() - i,
        {
            let ghost before = rows_view(dictionary@);
            dictionary.push(Self::copy_of_row(&self.dictionary[i]));
            proof {
                assert(rows_view(dictionary@) =~= before.push(self@.dictionary[i as int]));
                assert(self@.dictionary.take(i + 1) =~= self@.dictionary.take(i as int).push(
                    self@.dictionary[i as int],
                ));
            }
            i = i + 1;
        }
        let mut banned: Vec<String> = Vec::new();
        let mut j: usize = 0;
        while j < self.banned.len()
            invariant
                j <= self.banned.len(),
                texts_of(banned@) == self@.banned.take(j as int),
            decreases self.banned.len() - j,
        {
            let ghost before = texts_of(banned@);
            banned.push(self.banned[j].clone());
            proof {
                assert(texts_of(banned@) =~= before.push(self@.banned[j as int]));
                assert(self@.banned.take(j + 1) =~= self@.banned.take(j as int).push(
                    self@.banned[j as int],
                ));
            }
            j = j + 1;
        }
        proof {
            assert(self@.dictionary.take(i as int) =~= self@.dictionary);
            assert(self@.banned.take(j as int) =~= self@.banned);
        }
        let forward = self.forward.clone();
        let reverse = self.reverse.clone();
        let copy = Database { dictionary, banned, forward, reverse };
        proof {
            assert(copy@.forward =~= self@.forward);
            assert(copy@.reverse =~= self@.reverse);
        }
        copy
    }
}

impl Database {
    /// Whether the store meets its constraints.
    pub open spec fn wf(&self) -> bool {
        self@.wf()
    }

    /// A store without any row.
    pub fn new() -> (db: Database)
        ensures
            db.wf(),
            db@ == DatabaseView::empty(),
    {
        broadcast use group_hash_axioms;
        let db = Database {
            dictionary: Vec::new(),
            banned: Vec::new(),
            forward: HashMap::new(),
            reverse: HashMap::new(),
        };
        proof {
            assert(db@.dictionary =~= Seq::empty());
            assert(db@.banned =~= Seq::empty());
            assert(db@.forward =~= Map::empty());
            assert(db@.reverse =~= Map::empty());
        }
        db
    }

    /// The position of the row of the token of this text.
    fn find_text(&self, text: &String) -> (found: Option<usize>)
        ensures
            match found {
                Some(i) => i < self@.dictionary.len() && self@.dictionary[i as int].text == text@,
                None => !self@.has_text(text@),
            },
    {
        let mut i: usize = 0;
        while i < self.dictionary.len()
            invariant
                i <= self.dictionary.len(),
                forall|j: int| 0 <= j < i ==> (#[trigger] self@.dictionary[j]).text != text@,
            decreases self.dictionary.len() - i,
        {
            if self.dictionary[i].text == *text {
                return Some(i);
            }
            i = i + 1;
        }
        None
    }

    /// The position of the row of the token of this id.
    fn find_id(&self, id: i32) -> (found: Option<usize>)
        ensures
            match found {
                Some(i) => i < self@.dictionary.len() && self@.dictionary[i as int].id == id,
                None => !self@.has_id(id),
            },
    {
        let mut i: usize = 0;
        while i < self.dictionary.len()
            invariant
                i <= self.dictionary.len(),
                forall|j: int| 0 <= j < i ==> (#[trigger] self@.dictionary[j]).id != id,
            decreases self.dictionary.len() - i,
        {
            if self.dictionary[i].id == id {
                return Some(i);
            }
            i = i + 1;
        }
        None
    }

    /// Whether the dictionary has a token of this id.
    pub fn dictionary_has_identifier(&self, id: i32) -> (found: bool)
        ensures
            found == self@.has_id(id),
    {
        self.find_id(id).is_some()
    }

    /// The token of this id, if the dictionary has one.
    pub fn dictionary_get_word(&self, id: i32) -> (found: Option<DictionaryToken>)
        requires
            self.wf(),
        ensures
            match found {
                Some(token) => self@.has_id(id) && token.wf() && token@ == row_token(
                    self@.dictionary[self@.index_of_id(id)],
                ),
                None => !self@.has_id(id),
            },
    {
        match self.find_id(id) {
            Some(i) => {
                proof {
                    let k = self@.index_of_id(id);
                    assert(self@.dictionary[i as int].id == self@.dictionary[k].id);
                }
                Some(self.token_at(i))
            },
            None => None,
        }
    }

    /// The id of the token of this text, if the dictionary has one.
    pub fn dictionary_get_identifier(&self, text: &String) -> (id: Option<i32>)
        requires
            self.wf(),
        ensures
            id == self@.id_of(text@),
    {
        match self.find_text(text) {
            Some(i) => {
                proof {
                    let k = self@.index_of_text(text@);
                    assert(self@.dictionary[i as int].text == self@.dictionary[k].text);
                }
                Some(self.dictionary[i].id)
            },
            None => None,
        }
    }

    /// The banned texts, each with the id of the token of that text where
    /// the dictionary has one: all of them, or those among `tokens`.
    pub fn banned_load_banned_tokens(&self, tokens: Option<&Vec<String>>) -> (r: Result<
        Vec<BannedToken>,
        EngineError,
    >)
        requires
            self.wf(),
        ensures
            r is Ok,
            banned_views(r->Ok_0@) == self@.banned_entries(
                match tokens {
                    Some(wanted) => Some(texts_of(wanted@)),
                    None => None,
                },
            ),
    {
        let ghost wanted_texts: Option<Seq<Seq<char>>> = match tokens {
            Some(wanted) => Some(texts_of(wanted@)),
            None => None,
        };
        let ghost keep = |text: Seq<char>|
            match wanted_texts {
                Some(wanted) => wanted.contains(text),
                None => true,
            };
        let ghost entry = |text: Seq<char>| self@.banned_entry(text);
        let mut results: Vec<BannedToken> = Vec::new();
        let mut i: usize = 0;
        while i < self.banned.len()
            invariant
                self.wf(),
                i <= self.banned.len(),
                wanted_texts == match tokens {
                    Some(wanted) => Some(texts_of(wanted@)),
                    None => None,
                },
                keep == |text: Seq<char>|
                    match wanted_texts {
                        Some(wanted) => wanted.contains(text),
                        None => true,
                    },
                entry == |text: Seq<char>| self@.banned_entry(text),
                banned_views(results@) == self@.banned.take(i as int).filter(keep).map_values(
                    entry,
                ),
            decreases self.banned.len() - i,
        {
            let text = &self.banned[i];
            let selected = match tokens {
                Some(wanted) => text_in(wanted, text),
                None => true,
            };
            proof {
                lemma_filter_step(self@.banned, keep, i as int);
                assert(self@.banned[i as int] == text@);
                assert(selected == keep(text@));
            }
            if selected {
                let id = self.dictionary_get_identifier(text);
                let ghost before = banned_views(results@);
                results.push(BannedToken::new(text.clone(), id));
                proof {
                    let kept = self@.banned.take(i as int).filter(keep);
                    assert(banned_views(results@) =~= before.push(entry(text@)));
                    assert(kept.push(text@).map_values(entry) =~= kept.map_values(entry).push(
                        entry(text@),
                    ));
                }
            }
            i = i + 1;
        }
        proof {
            assert(self@.banned.take(i as int) =~= self@.banned);
        }
        Ok(results)
    }

    /// Bans `tokens`: each text that is not banned yet is added to the
    /// banned table. Returns the entries of the table for `tokens`, each
    /// with the id of the token of that text.
    pub fn banned_ban_tokens(&mut self, tokens: &Vec<String>) -> (r: Result<
        Vec<BannedToken>,
        EngineError,
    >)
        requires
            old(self).wf(),
        ensures
            final(self).wf(),
            final(self)@ == (DatabaseView {
                banned: with_banned(old(self)@.banned, texts_of(tokens@)),
                ..old(self)@
            }),
            r is Ok,
            banned_views(r->Ok_0@) == final(self)@.banned_entries(Some(texts_of(tokens@))),
    {
        let mut i: usize = 0;
        proof {
            assert(texts_of(tokens@).take(0) =~= Seq::empty());
        }
        while i < tokens.len()
            invariant
                self.wf(),
                i <= tokens.len(),
                self@ == (DatabaseView {
                    banned: with_banned(old(self)@.banned, texts_of(tokens@).take(i as int)),
                    ..old(self)@
                }),
            decreases tokens.len() - i,
        {
            let ghost before = self@;
            let token = &tokens[i];
            let present = text_in(&self.banned, token);
            if !present {
                self.banned.push(token.clone());
                assert(self@.banned =~= before.banned.push(token@));
            }
            proof {
                let shorter = texts_of(tokens@).take(i as int);
                let longer = texts_of(tokens@).take(i + 1);
                assert(longer.drop_last() =~= shorter);
                assert(longer.last() == token@);
                assert(self@.dictionary == before.dictionary);
                assert forall|id: i32| self@.has_id(id) == before.has_id(id) by {}
            }
            i = i + 1;
        }
        proof {
            assert(texts_of(tokens@).take(i as int) =~= texts_of(tokens@));
        }
        self.banned_load_banned_tokens(Some(tokens))
    }

    /// Lifts the ban of `tokens`: each of these texts leaves the banned
    /// table.
    pub fn banned_unban_tokens(&mut self, tokens: &Vec<String>) -> (r: Result<(), EngineError>)
        requires
            old(self).wf(),
        ensures
            final(self).wf(),
            final(self)@ == (DatabaseView {
                banned: without_banned(old(self)@.banned, texts_of(tokens@)),
                ..old(self)@
            }),
            r is Ok,
    {
        let ghost keep = |text: Seq<char>| !texts_of(tokens@).contains(text);
        let mut kept: Vec<String> = Vec::new();
        let mut i: usize = 0;
        while i < self.banned.len()
            invariant
                i <= self.banned.len(),
                keep == |text: Seq<char>| !texts_of(tokens@).contains(text),
                texts_of(kept@) == self@.banned.take(i as int).filter(keep),
            decreases self.banned.len() - i,
        {
            let text = &self.banned[i];
            proof {
                lemma_filter_step(self@.banned, keep, i as int);
            }
            if !text_in(tokens, text) {
                let ghost before = texts_of(kept@);
                kept.push(text.clone());
                assert(texts_of(kept@) =~= before.push(text@));
            }
            i = i + 1;
        }
        proof {
            assert(self@.banned.take(i as int) =~= self@.banned);
            lemma_filter_keeps(self@.banned, keep);
        }
        let ghost before = self@;
        self.banned = kept;
        proof {
            assert(self@.dictionary == before.dictionary);
            assert forall|id: i32| self@.has_id(id) == before.has_id(id) by {}
        }
        Ok(())
    }

    /// Whether one of `substrings` is a part of `text`.
    fn text_contains_any(text: &String, substrings: &Vec<String>) -> (found: bool)
        ensures
            found == contains_any(text@, texts_of(substrings@)),
    {
        let mut j: usize = 0;
        while j < substrings.len()
            invariant
                j <= substrings.len(),
                forall|k: int| 0 <= k < j ==> !contains(text@, (#[trigger] substrings@[k])@),
            decreases substrings.len() - j,
        {
            if str_contains(text.as_str(), substrings[j].as_str()) {
                assert(contains(text@, texts_of(substrings@)[j as int]));
                return true;
            }
            j = j + 1;
        }
        proof {
            let all = texts_of(substrings@);
            assert forall|k: int| 0 <= k < all.len() implies !contains(text@, #[trigger] all[k]) by {
                assert(!contains(text@, substrings@[k]@));
            }
        }
        false
    }

    /// Whether `id` is one of `ids`.
    fn id_in(ids: &Vec<i32>, id: i32) -> (found: bool)
        ensures
            found == ids@.contains(id),
    {
        let mut j: usize = 0;
        while j < ids.len()
            invariant
                j <= ids.len(),
                forall|k: int| 0 <= k < j ==> ids@[k] != id,
            decreases ids.len() - j,
        {
            if ids[j] == id {
                return true;
            }
            j = j + 1;
        }
        false
    }

    /// The token that the row at `i` holds.
    fn token_at(&self, i: usize) -> (token: DictionaryToken)
        requires
            i < self@.dictionary.len(),
        ensures
            token@ == row_token(self@.dictionary[i as int]),
            token.wf(),
    {
        let row = &self.dictionary[i];
        let forms: Vec<(String, u32)> = match &row.forms {
            Some(blob) => match decode_forms(blob) {
                Ok(forms) => forms,
                Err(_) => Vec::new(),
            },
            None => Vec::new(),
        };
        proof {
            assert(forms@.len() == 0 ==> crate::engine::model::codec::forms_view(forms@)
                =~= Seq::empty());
        }
        DictionaryToken::new(row.id, row.occurrences, row.text.clone(), forms)
    }

    /// The text and id of every token whose text has one of `substrings` as
    /// a part.
    pub fn dictionary_enumerate_words_by_substring(&self, substrings: &Vec<String>) -> (r: Result<
        Vec<(String, i32)>,
        EngineError,
    >)
        ensures
            r is Ok,
            pair_views(r->Ok_0@) == self@.words_by_substring(texts_of(substrings@)),
    {
        let ghost keep = |row: RowView| contains_any(row.text, texts_of(substrings@));
        let ghost pair = |row: RowView| row_pair(row);
        let mut results: Vec<(String, i32)> = Vec::new();
        let mut i: usize = 0;
        while i < self.dictionary.len()
            invariant
                i <= self.dictionary.len(),
                keep == |row: RowView| contains_any(row.text, texts_of(substrings@)),
                pair == |row: RowView| row_pair(row),
                pair_views(results@) == self@.dictionary.take(i as int).filter(keep).map_values(
                    pair,
                ),
            decreases self.dictionary.len() - i,
        {
            let row = &self.dictionary[i];
            proof {
                lemma_filter_step(self@.dictionary, keep, i as int);
            }
            if Self::text_contains_any(&row.text, substrings) {
                let ghost before = pair_views(results@);
                results.push((row.text.clone(), row.id));
                proof {
                    let kept = self@.dictionary.take(i as int).filter(keep);
                    let view = self@.dictionary[i as int];
                    assert(pair_views(results@) =~= before.push(pair(view)));
                    assert(kept.push(view).map_values(pair) =~= kept.map_values(pair).push(
                        pair(view),
                    ));
                }
            }
            i = i + 1;
        }
        proof {
            assert(self@.dictionary.take(i as int) =~= self@.dictionary);
        }
        Ok(results)
    }

    /// The tokens whose text is among `tokens`.
    pub fn dictionary_get_words_by_token(&self, tokens: &Vec<String>) -> (r: Result<
        Vec<DictionaryToken>,
        EngineError,
    >)
        ensures
            r is Ok,
            token_views(r->Ok_0@) == self@.words_by_token(texts_of(tokens@)),
            forall|i: int| 0 <= i < r->Ok_0@.len() ==> (#[trigger] r->Ok_0@[i]).wf(),
    {
        let ghost keep = |row: RowView| texts_of(tokens@).contains(row.text);
        let ghost token = |row: RowView| row_token(row);
        let mut results: Vec<DictionaryToken> = Vec::new();
        let mut i: usize = 0;
        while i < self.dictionary.len()
            invariant
                i <= self.dictionary.len(),
                keep == |row: RowView| texts_of(tokens@).contains(row.text),
                token == |row: RowView| row_token(row),
                token_views(results@) == self@.dictionary.take(i as int).filter(keep).map_values(
                    token,
                ),
                forall|k: int| 0 <= k < results@.len() ==> (#[trigger] results@[k]).wf(),
            decreases self.dictionary.len() - i,
        {
            proof {
                lemma_filter_step(self@.dictionary, keep, i as int);
            }
            if text_in(tokens, &self.dictionary[i].text) {
                let ghost before = token_views(results@);
                results.push(self.token_at(i));
                proof {
                    let kept = self@.dictionary.take(i as int).filter(keep);
                    let view = self@.dictionary[i as int];
                    assert(token_views(results@) =~= before.push(token(view)));
                    assert(kept.push(view).map_values(token) =~= kept.map_values(token).push(
                        token(view),
                    ));
                }
            }
            i = i + 1;
        }
        proof {
            assert(self@.dictionary.take(i as int) =~= self@.dictionary);
        }
        Ok(results)
    }

    /// The tokens whose id is among `ids`.
    pub fn dictionary_get_words_by_id(&self, ids: &Vec<i32>) -> (r: Result<
        Vec<DictionaryToken>,
        EngineError,
    >)
        ensures
            r is Ok,
            token_views(r->Ok_0@) == self@.words_by_id(ids@),
            forall|i: int| 0 <= i < r->Ok_0@.len() ==> (#[trigger] r->Ok_0@[i]).wf(),
    {
        let ghost keep = |row: RowView| ids@.contains(row.id);
        let ghost token = |row: RowView| row_token(row);
        let mut results: Vec<DictionaryToken> = Vec::new();
        let mut i: usize = 0;
        while i < self.dictionary.len()
            invariant
                i <= self.dictionary.len(),
                keep == |row: RowView| ids@.contains(row.id),
                token == |row: RowView| row_token(row),
                token_views(results@) == self@.dictionary.take(i as int).filter(keep).map_values(
                    token,
                ),
                forall|k: int| 0 <= k < results@.len() ==> (#[trigger] results@[k]).wf(),
            decreases self.dictionary.len() - i,
        {
            proof {
                lemma_filter_step(self@.dictionary, keep, i as int);
            }
            if Self::id_in(ids, self.dictionary[i].id) {
                let ghost before = token_views(results@);
                results.push(self.token_at(i));
                proof {
                    let kept = self@.dictionary.take(i as int).filter(keep);
                    let view = self@.dictionary[i as int];
                    assert(token_views(results@) =~= before.push(token(view)));
                    assert(kept.push(view).map_values(token) =~= kept.map_values(token).push(
                        token(view),
                    ));
                }
            }
            i = i + 1;
        }
        proof {
            assert(self@.dictionary.take(i as int) =~= self@.dictionary);
        }
        Ok(results)
    }

    /// The text and id of up to `count` tokens, chosen by `seed`: the tokens
    /// that follow each other in the table from position `seed % len`.
    pub fn dictionary_get_random_words(&self, count: u8, seed: u64) -> (r: Result<
        Vec<(String, i32)>,
        EngineError,
    >)
        ensures
            r is Ok,
            pair_views(r->Ok_0@) == self@.random_words(count, seed),
    {
        let len = self.dictionary.len();
        let mut results: Vec<(String, i32)> = Vec::new();
        if len == 0 {
            assert(pair_views(results@) =~= Seq::empty());
            return Ok(results);
        }
        let wanted: usize = if (count as usize) < len {
            count as usize
        } else {
            len
        };
        let mut at: usize = (seed % (len as u64)) as usize;
        let mut i: usize = 0;
        while i < wanted
            invariant
                len == self.dictionary.len(),
                len > 0,
                wanted <= len,
                i <= wanted,
                at < len,
                at == rotated((seed % (len as u64)) as int, i as int, len as int),
                pair_views(results@).len() == i,
                forall|k: int|
                    0 <= k < i ==> #[trigger] pair_views(results@)[k] == row_pair(
                        self@.dictionary[rotated((seed % (len as u64)) as int, k, len as int)],
                    ),
            decreases wanted - i,
        {
            let row = &self.dictionary[at];
            let ghost before = pair_views(results@);
            results.push((row.text.clone(), row.id));
            assert(pair_views(results@) =~= before.push(row_pair(self@.dictionary[at as int])));
            at = if at + 1 == len {
                0
            } else {
                at + 1
            };
            i = i + 1;
        }
        proof {
            assert(pair_views(results@) =~= self@.random_words(count, seed));
        }
        Ok(results)
    }

    /// The id for the next new token: one more than the highest id in use,
    /// and the lowest id of all in an empty dictionary. When the highest id
    /// of all is in use, no token can be added: `TransactionFailure`.
    pub fn dictionary_get_next_identifier(&self) -> (r: Result<i32, EngineError>)
        ensures
            match r {
                Ok(id) => id == next_identifier(self@.dictionary),
                Err(e) => e == EngineError::TransactionFailure && next_identifier(
                    self@.dictionary,
                ) > i32::MAX,
            },
    {
        let mut next: i64 = i32::MIN as i64;
        let mut i: usize = 0;
        proof {
            assert(self@.dictionary.take(0) =~= Seq::empty());
        }
        while i < self.dictionary.len()
            invariant
                i <= self.dictionary.len(),
                next == next_identifier(self@.dictionary.take(i as int)),
                i32::MIN <= next <= i32::MAX + 1,
            decreases self.dictionary.len() - i,
        {
            let id = self.dictionary[i].id as i64;
            proof {
                assert(self@.dictionary.take(i + 1).drop_last() =~= self@.dictionary.take(
                    i as int,
                ));
            }
            if id + 1 > next {
                next = id + 1;
            }
            i = i + 1;
        }
        proof {
            assert(self@.dictionary.take(i as int) =~= self@.dictionary);
        }
        if next > i32::MAX as i64 {
            Err(EngineError::TransactionFailure)
        } else {
            Ok(next as i32)
        }
    }

    /// A copy of a blob.
    fn copy_of_blob(blob: &Vec<u8>) -> (copy: Vec<u8>)
        ensures
            copy@ == blob@,
    {
        let mut copy: Vec<u8> = Vec::new();
        let mut i: usize = 0;
        while i < blob.len()
            invariant
                i <= blob.len(),
                copy@ == blob@.take(i as int),
            decreases blob.len() - i,
        {
            copy.push(blob[i]);
            i = i + 1;
        }
        copy
    }

    /// A copy of a row.
    fn copy_of_row(row: &DictionaryRow) -> (copy: DictionaryRow)
        ensures
            copy.view() == row.view(),
    {
        DictionaryRow {
            text: row.text.clone(),
            id: row.id,
            occurrences: row.occurrences,
            forms: match &row.forms {
                Some(blob) => Some(Self::copy_of_blob(blob)),
                None => None,
            },
        }
    }

    /// The position of the row of this id among `rows`.
    fn find_row_by_id(rows: &Vec<DictionaryRow>, id: i32) -> (found: Option<usize>)
        ensures
            match found {
                Some(i) => i < rows@.len() && rows_view(rows@)[i as int].id == id,
                None => !rows_have_id(rows_view(rows@), id),
            },
    {
        let mut i: usize = 0;
        while i < rows.len()
            invariant
                i <= rows.len(),
                forall|j: int| 0 <= j < i ==> (#[trigger] rows_view(rows@)[j]).id != id,
            decreases rows.len() - i,
        {
            if rows[i].id == id {
                return Some(i);
            }
            i = i + 1;
        }
        None
    }

    /// The position of the row of this text among `rows`.
    fn find_row_by_text(rows: &Vec<DictionaryRow>, text: &String) -> (found: Option<usize>)
        ensures
            match found {
                Some(i) => i < rows@.len() && rows_view(rows@)[i as int].text == text@,
                None => !rows_have_text(rows_view(rows@), text@),
            },
    {
        let mut i: usize = 0;
        while i < rows.len()
            invariant
                i <= rows.len(),
                forall|j: int| 0 <= j < i ==> (#[trigger] rows_view(rows@)[j]).text != text@,
            decreases rows.len() - i,
        {
            if rows[i].text == *text {
                return Some(i);
            }
            i = i + 1;
        }
        None
    }

    /// Stores `words`, one by one: a token whose id the table holds has its
    /// occurrence count and capitalised forms replaced, any other is added.
    /// Where a new token's text is taken, or forms do not encode, the whole
    /// change is refused and the store stays as it was.
    pub fn dictionary_set_words(&mut self, words: &Vec<DictionaryToken>) -> (r: Result<
        (),
        EngineError,
    >)
        requires
            old(self).wf(),
        ensures
            final(self).wf(),
            match word_rows(token_views(words@)) {
                Some(rows) => match upserted_all(old(self)@.dictionary, rows) {
                    Some(dictionary) => r is Ok && final(self)@ == (DatabaseView {
                        dictionary,
                        ..old(self)@
                    }),
                    None => r == Err::<(), EngineError>(EngineError::TransactionFailure)
                        && final(self)@ == old(self)@,
                },
                None => r == Err::<(), EngineError>(EngineError::TransactionFailure)
                    && final(self)@ == old(self)@,
            },
    {
        let ghost tokens = token_views(words@);
        let mut fresh: Vec<DictionaryRow> = Vec::new();
        let mut i: usize = 0;
        proof {
            assert(tokens.take(0) =~= Seq::empty());
            assert(rows_view(fresh@) =~= Seq::empty());
        }
        while i < words.len()
            invariant
                i <= words.len(),
                self.wf(),
                self@ == old(self)@,
                tokens == token_views(words@),
                word_rows(tokens.take(i as int)) == Some(rows_view(fresh@)),
            decreases words.len() - i,
        {
            let word = &words[i];
            let forms = word.get_capitalised_forms();
            proof {
                assert(tokens.take(i + 1).drop_last() =~= tokens.take(i as int));
                assert(tokens.take(i + 1).last() == word@);
            }
            let blob: Option<Vec<u8>> = if forms.len() == 0 {
                None
            } else {
                match encode_forms(forms) {
                    Ok(blob) => Some(blob),
                    Err(_) => {
                        proof {
                            lemma_word_rows_prefix(tokens, i + 1);
                        }
                        return Err(EngineError::TransactionFailure);
                    },
                }
            };
            let ghost before = rows_view(fresh@);
            fresh.push(
                DictionaryRow {
                    text: word.get_case_insensitive_representation().clone(),
                    id: *word.get_id(),
                    occurrences: *word.get_case_insensitive_occurrences(),
                    forms: blob,
                },
            );
            proof {
                assert(rows_view(fresh@) =~= before.push(word_row(word@)->0));
            }
            i = i + 1;
        }
        proof {
            assert(tokens.take(i as int) =~= tokens);
        }
        let ghost rows = rows_view(fresh@);
        let ghost start = self@.dictionary;
        let mut work: Vec<DictionaryRow> = Vec::new();
        let mut c: usize = 0;
        while c < self.dictionary.len()
            invariant
                c <= self.dictionary.len(),
                rows_view(work@) == self@.dictionary.take(c as int),
            decreases self.dictionary.len() - c,
        {
            let ghost before = rows_view(work@);
            work.push(Self::copy_of_row(&self.dictionary[c]));
            proof {
                assert(rows_view(work@) =~= before.push(self@.dictionary[c as int]));
                assert(self@.dictionary.take(c + 1) =~= self@.dictionary.take(c as int).push(
                    self@.dictionary[c as int],
                ));
            }
            c = c + 1;
        }
        proof {
            assert(self@.dictionary.take(c as int) =~= self@.dictionary);
            assert(rows.take(0) =~= Seq::empty());
        }
        let mut j: usize = 0;
        while j < fresh.len()
            invariant
                j <= fresh.len(),
                self.wf(),
                self@ == old(self)@,
                start == self@.dictionary,
                word_rows(token_views(words@)) == Some(rows),
                rows == rows_view(fresh@),
                upserted_all(start, rows.take(j as int)) == Some(rows_view(work@)),
                rows_distinct(rows_view(work@)),
                forall|id: i32| rows_have_id(start, id) ==> rows_have_id(rows_view(work@), id),
            decreases fresh.len() - j,
        {
            let row = &fresh[j];
            let ghost before = rows_view(work@);
            proof {
                assert(rows.take(j + 1).drop_last() =~= rows.take(j as int));
                assert(rows.take(j + 1).last() == row.view());
            }
            match Self::find_row_by_id(&work, row.id) {
                Some(k) => {
                    proof {
                        let chosen = rows_index_of_id(before, row.id);
                        assert(before[chosen].id == before[k as int].id);
                        assert(chosen == k);
                        lemma_upserted(before, row.view());
                    }
                    let replaced = DictionaryRow {
                        text: work[k].text.clone(),
                        id: work[k].id,
                        occurrences: row.occurrences,
                        forms: match &row.forms {
                            Some(blob) => Some(Self::copy_of_blob(blob)),
                            None => None,
                        },
                    };
                    work.set(k, replaced);
                    proof {
                        assert(rows_view(work@) =~= upserted(before, row.view())->0);
                    }
                },
                None => {
                    match Self::find_row_by_text(&work, &row.text) {
                        Some(_) => {
                            proof {
                                assert(upserted(before, row.view()) is None);
                                lemma_upserted_all_prefix(start, rows, j + 1);
                            }
                            return Err(EngineError::TransactionFailure);
                        },
                        None => {
                            proof {
                                lemma_upserted(before, row.view());
                            }
                            work.push(Self::copy_of_row(row));
                            proof {
                                assert(rows_view(work@) =~= upserted(before, row.view())->0);
                            }
                        },
                    }
                },
            }
            j = j + 1;
        }
        proof {
            assert(rows.take(j as int) =~= rows);
        }
        self.dictionary = work;
        Ok(())
    }

    /// The blob stored for `id` in one direction, if there is a row.
    pub fn model_get_blob(&self, direction: Direction, id: i32) -> (blob: Option<Vec<u8>>)
        ensures
            match blob {
                Some(bytes) => self@.table(direction).contains_key(id) && self@.table(direction)[id]
                    == bytes@,
                None => !self@.table(direction).contains_key(id),
            },
    {
        broadcast use group_hash_axioms;
        let found = match direction {
            Direction::Forward => self.forward.get(&id),
            Direction::Reverse => self.reverse.get(&id),
        };
        match found {
            Some(bytes) => Some(Self::copy_of_blob(bytes)),
            None => None,
        }
    }

    /// Applies `changes` to the table of one direction, one by one: a blob
    /// is stored under its id, and without a blob the row of that id is
    /// deleted. Where a blob is to be stored for an id that the dictionary
    /// does not hold, the whole change is refused and the store stays as it
    /// was.
    pub fn model_put_blobs(
        &mut self,
        direction: Direction,
        changes: &Vec<(i32, Option<Vec<u8>>)>,
    ) -> (r: Result<(), EngineError>)
        requires
            old(self).wf(),
        ensures
            final(self).wf(),
            if forall|k: int|
                0 <= k < changes@.len()
                    && (#[trigger] changes@[k]).1 is Some ==> old(self)@.has_id(changes@[k].0) {
                r is Ok && final(self)@ == old(self)@.with_table(
                    direction,
                    put_all(old(self)@.table(direction), change_views(changes@)),
                )
            } else {
                r == Err::<(), EngineError>(EngineError::TransactionFailure)
                    && final(self)@ == old(self)@
            },
    {
        broadcast use group_hash_axioms;
        let mut c: usize = 0;
        while c < changes.len()
            invariant
                c <= changes.len(),
                *self == *old(self),
                self.wf(),
                forall|k: int|
                    0 <= k < c && (#[trigger] changes@[k]).1 is Some ==> self@.has_id(
                        changes@[k].0,
                    ),
            decreases changes.len() - c,
        {
            if changes[c].1.is_some() {
                if self.find_id(changes[c].0).is_none() {
                    return Err(EngineError::TransactionFailure);
                }
            }
            c = c + 1;
        }
        let ghost views = change_views(changes@);
        let ghost start = self@;
        let mut i: usize = 0;
        proof {
            assert(views.take(0) =~= Seq::empty());
            assert(self@ == start.with_table(direction, start.table(direction)));
        }
        while i < changes.len()
            invariant
                i <= changes.len(),
                views == change_views(changes@),
                start.wf(),
                self.wf(),
                forall|k: int|
                    0 <= k < changes@.len() && (#[trigger] changes@[k]).1 is Some ==> start.has_id(
                        changes@[k].0,
                    ),
                self@ == start.with_table(
                    direction,
                    put_all(start.table(direction), views.take(i as int)),
                ),
            decreases changes.len() - i,
        {
            let id = changes[i].0;
            let ghost before = self@;
            proof {
                assert(views.take(i + 1).drop_last() =~= views.take(i as int));
                assert(views.take(i + 1).last() == views[i as int]);
            }
            match &changes[i].1 {
                Some(blob) => {
                    let copy = Self::copy_of_blob(blob);
                    match direction {
                        Direction::Forward => {
                            self.forward.insert(id, copy);
                        },
                        Direction::Reverse => {
                            self.reverse.insert(id, copy);
                        },
                    }
                    proof {
                        assert(self@.table(direction) =~= before.table(direction).insert(id, blob@));
                    }
                },
                None => {
                    match direction {
                        Direction::Forward => {
                            self.forward.remove(&id);
                        },
                        Direction::Reverse => {
                            self.reverse.remove(&id);
                        },
                    }
                    proof {
                        assert(self@.table(direction) =~= before.table(direction).remove(id));
                    }
                },
            }
            proof {
                assert(self@.table(direction) == put(before.table(direction), views[i as int]));
                assert(self@.forward.dom() =~= self.forward@.dom());
                assert(self@.reverse.dom() =~= self.reverse@.dom());
                assert(self@ == start.with_table(direction, self@.table(direction)));
            }
            i = i + 1;
        }
        proof {
            assert(views.take(i as int) =~= views);
        }
        Ok(())
    }

    /// The nodes stored in one direction for `ids`. An id without a row, or
    /// whose blob does not decode, has no node.
    pub fn model_get_transitions(&self, direction: Direction, ids: &Vec<i32>) -> (r: Result<
        HashMap<i32, Node>,
        EngineError,
    >)
        ensures
            r is Ok,
            forall|id: i32| #[trigger]
                r->Ok_0@.contains_key(id) <==> ids@.contains(id) && self@.node(direction, id)
                    is Some,
            forall|id: i32| #[trigger]
                r->Ok_0@.contains_key(id) ==> r->Ok_0@[id]@ == self@.node(direction, id)->0,
    {
        broadcast use group_hash_axioms;
        let mut results: HashMap<i32, Node> = HashMap::new();
        let mut i: usize = 0;
        while i < ids.len()
            invariant
                i <= ids.len(),
                forall|id: i32| #[trigger]
                    results@.contains_key(id) <==> ids@.take(i as int).contains(id) && self@.node(
                        direction,
                        id,
                    ) is Some,
                forall|id: i32| #[trigger]
                    results@.contains_key(id) ==> results@[id]@ == self@.node(direction, id)->0,
            decreases ids.len() - i,
        {
            let id = ids[i];
            proof {
                assert(ids@.take(i + 1) =~= ids@.take(i as int).push(id));
                assert forall|other: i32|
                    ids@.take(i + 1).contains(other) <==> other == id || ids@.take(
                        i as int,
                    ).contains(other) by {
                    if ids@.take(i as int).contains(other) {
                        let k = choose|k: int|
                            0 <= k < ids@.take(i as int).len() && ids@.take(i as int)[k] == other;
                        assert(ids@.take(i + 1)[k] == other);
                    }
                    if other == id {
                        assert(ids@.take(i + 1)[i as int] == id);
                    }
                }
            }
            let found = match direction {
                Direction::Forward => self.forward.get(&id),
                Direction::Reverse => self.reverse.get(&id),
            };
            match found {
                Some(blob) => {
                    assert(self@.table(direction)[id] == blob@);
                    match decode_transitions(blob) {
                        Ok(triples) => {
                            results.insert(id, Node::from_triples(&triples));
                        },
                        Err(_) => {},
                    }
                },
                None => {},
            }
            i = i + 1;
        }
        proof {
            assert(ids@.take(i as int) =~= ids@);
        }
        Ok(results)
    }

    /// Stores `nodes` in one direction, one by one: a node with transitions
    /// is encoded and stored under its id, an empty node has its row
    /// deleted. Where the dictionary does not hold the id of a node with
    /// transitions, or a node does not encode, the whole change is refused
    /// and the store stays as it was.
    pub fn model_set_transitions(&mut self, direction: Direction, nodes: &Vec<(i32, Node)>) -> (r:
        Result<(), EngineError>)
        requires
            old(self).wf(),
        ensures
            final(self).wf(),
            r is Err ==> r == Err::<(), EngineError>(EngineError::TransactionFailure)
                && final(self)@ == old(self)@,
            (exists|k: int|
                0 <= k < nodes@.len() && (#[trigger] nodes@[k]).1@.len() > 0 && !old(self)@.has_id(
                    nodes@[k].0,
                )) ==> r is Err,
            r is Err ==> exists|k: int|
                0 <= k < nodes@.len() && refuses_node(
                    old(self)@,
                    (#[trigger] nodes@[k]).0,
                    nodes@[k].1@,
                ),
            r is Ok ==> exists|changes: Seq<(i32, Option<Seq<u8>>)>|
                {
                    &&& changes.len() == nodes@.len()
                    &&& forall|k: int|
                        0 <= k < nodes@.len() ==> stores_node(
                            #[trigger] changes[k],
                            nodes@[k].0,
                            nodes@[k].1@,
                        )
                    &&& final(self)@ == old(self)@.with_table(
                        direction,
                        put_all(old(self)@.table(direction), changes),
                    )
                },
    {
        let mut changes: Vec<(i32, Option<Vec<u8>>)> = Vec::new();
        let mut i: usize = 0;
        while i < nodes.len()
            invariant
                i <= nodes.len(),
                *self == *old(self),
                self.wf(),
                changes@.len() == i,
                forall|k: int|
                    0 <= k < i ==> stores_node(
                        #[trigger] change_views(changes@)[k],
                        nodes@[k].0,
                        nodes@[k].1@,
                    ),
            decreases nodes.len() - i,
        {
            let id = nodes[i].0;
            let node = &nodes[i].1;
            let ghost before = change_views(changes@);
            if node.is_empty() {
                changes.push((id, None));
            } else {
                let triples = node.triples();
                match encode_transitions(&triples) {
                    Ok(blob) => {
                        changes.push((id, Some(blob)));
                    },
                    Err(_) => {
                        proof {
                            assert(lists(triples@, nodes@[i as int].1@) && blob_of_triples(
                                triples@,
                            ) is None);
                            assert(refuses_node(self@, nodes@[i as int].0, nodes@[i as int].1@));
                        }
                        return Err(EngineError::TransactionFailure);
                    },
                }
            }
            proof {
                let after = change_views(changes@);
                assert forall|k: int| 0 <= k < i + 1 implies stores_node(
                    #[trigger] after[k],
                    nodes@[k].0,
                    nodes@[k].1@,
                ) by {
                    if k < i {
                        assert(after[k] == before[k]);
                    }
                }
            }
            i = i + 1;
        }
        proof {
            let views = change_views(changes@);
            assert forall|k: int| 0 <= k < nodes@.len() implies ((#[trigger] changes@[k]).1
                is Some <==> nodes@[k].1@.len() > 0) by {
                assert(stores_node(views[k], nodes@[k].0, nodes@[k].1@));
            }
            assert forall|k: int| 0 <= k < nodes@.len() implies (#[trigger] changes@[k]).0
                == nodes@[k].0 by {
                assert(stores_node(views[k], nodes@[k].0, nodes@[k].1@));
            }
        }
        let r = self.model_put_blobs(direction, &changes);
        proof {
            let views = change_views(changes@);
            if exists|k: int|
                0 <= k < nodes@.len() && (#[trigger] nodes@[k]).1@.len() > 0 && !old(self)@.has_id(
                    nodes@[k].0,
                ) {
                let k = choose|k: int|
                    0 <= k < nodes@.len() && (#[trigger] nodes@[k]).1@.len() > 0
                        && !old(self)@.has_id(nodes@[k].0);
                assert(changes@[k].1 is Some);
                assert(!old(self)@.has_id(changes@[k].0));
            }
            if r is Err {
                let k = choose|k: int|
                    0 <= k < changes@.len() && (#[trigger] changes@[k]).1 is Some
                        && !old(self)@.has_id(changes@[k].0);
                assert(nodes@[k].1@.len() > 0);
                assert(refuses_node(old(self)@, nodes@[k].0, nodes@[k].1@));
            }
            if r is Ok {
                assert forall|k: int| 0 <= k < nodes@.len() implies stores_node(
                    #[trigger] views[k],
                    nodes@[k].0,
                    nodes@[k].1@,
                ) by {}
            }
        }
        r
    }

    /// Forgets the capitalised forms of the tokens `ids`: the column of
    /// forms of their rows becomes empty.
    pub fn dictionary_scrub_forms(&mut self, ids: &Vec<i32>) -> (r: Result<(), EngineError>)
        requires
            old(self).wf(),
        ensures
            final(self).wf(),
            r is Ok,
            final(self)@ == (DatabaseView {
                dictionary: scrubbed_rows(old(self)@.dictionary, ids@),
                ..old(self)@
            }),
    {
        let ghost start = self@;
        let mut i: usize = 0;
        while i < self.dictionary.len()
            invariant
                i <= self.dictionary.len(),
                self@.dictionary.len() == start.dictionary.len(),
                self@.banned == start.banned,
                self@.forward == start.forward,
                self@.reverse == start.reverse,
                forall|k: int|
                    0 <= k < i ==> #[trigger] self@.dictionary[k] == scrubbed_rows(
                        start.dictionary,
                        ids@,
                    )[k],
                forall|k: int|
                    i <= k < self@.dictionary.len() ==> #[trigger] self@.dictionary[k]
                        == start.dictionary[k],
            decreases self.dictionary.len() - i,
        {
            let ghost row = self@.dictionary[i as int];
            assert(row == start.dictionary[i as int]);
            assert(row.id == self.dictionary@[i as int].id);
            if Self::id_in(ids, self.dictionary[i].id) {
                let ghost before = self@.dictionary;
                let replaced = DictionaryRow {
                    text: self.dictionary[i].text.clone(),
                    id: self.dictionary[i].id,
                    occurrences: self.dictionary[i].occurrences,
                    forms: None,
                };
                self.dictionary.set(i, replaced);
                proof {
                    assert forall|k: int| 0 <= k < self@.dictionary.len() && k != i implies
                        #[trigger] self@.dictionary[k] == before[k] by {}
                    assert(self@.dictionary[i as int] == (RowView { forms: None, ..row }));
                }
            }
            assert(self@.dictionary[i as int] == scrubbed_rows(start.dictionary, ids@)[i as int]);
            i = i + 1;
        }
        proof {
            let after = scrubbed_rows(start.dictionary, ids@);
            assert(self@.dictionary =~= after);
            assert forall|a: int, b: int| 0 <= a < b < after.len() implies (#[trigger] after[a]).text
                != (#[trigger] after[b]).text by {
                assert(after[a].text == start.dictionary[a].text);
                assert(after[b].text == start.dictionary[b].text);
            }
            assert forall|a: int, b: int| 0 <= a < b < after.len() implies (#[trigger] after[a]).id
                != (#[trigger] after[b]).id by {
                assert(after[a].id == start.dictionary[a].id);
                assert(after[b].id == start.dictionary[b].id);
            }
            assert forall|id: i32| start.has_id(id) implies self@.has_id(id) by {
                let k = start.index_of_id(id);
                assert(after[k].id == id);
            }
        }
        Ok(())
    }
}

/// The store of one context in the registry.
struct Store {
    id: String,
    serial: u64,
    database: Database,
}

/// What the registry holds of one context: its id, the serial number under
/// which its store was created, and the store.
pub struct StoreView {
    pub id: Seq<char>,
    pub serial: u64,
    pub database: DatabaseView,
}

impl Store {
    spec fn view(&self) -> StoreView {
        StoreView { id: self.id@, serial: self.serial, database: self.database@ }
    }
}

/// What a registry of stores holds.
pub struct DatabaseManagerView {
    pub db_dir: Seq<char>,
    pub stores: Seq<StoreView>,
    pub next_serial: u64,
}

impl DatabaseManagerView {
    /// Whether there is a store for the context `id`.
    pub open spec fn has(self, id: Seq<char>) -> bool {
        exists|i: int| 0 <= i < self.stores.len() && (#[trigger] self.stores[i]).id == id
    }

    /// The position of the store of the context `id`.
    pub open spec fn index_of(self, id: Seq<char>) -> int {
        choose|i: int| 0 <= i < self.stores.len() && (#[trigger] self.stores[i]).id == id
    }

    /// The position of the store that was created for the context `id`
    /// under the serial number `serial`, if it is still there.
    pub open spec fn position(self, id: Seq<char>, serial: u64) -> Option<int> {
        if self.has(id) && self.stores[self.index_of(id)].serial == serial {
            Some(self.index_of(id))
        } else {
            None
        }
    }

    /// No two stores are of the same context, every store meets its
    /// constraints, and every serial number in use lies below the next one.
    pub open spec fn wf(self) -> bool {
        &&& forall|i: int, j: int|
            0 <= i < j < self.stores.len() ==> (#[trigger] self.stores[i]).id != (
            #[trigger] self.stores[j]).id
        &&& forall|i: int| 0 <= i < self.stores.len() ==> (#[trigger] self.stores[i]).database.wf()
        &&& forall|i: int|
            0 <= i < self.stores.len() ==> (#[trigger] self.stores[i]).serial < self.next_serial
    }
}

impl DatabaseManagerView {
    /// The registry with `database` in the place of the store at
    /// `position`.
    pub open spec fn with_database(self, position: int, database: DatabaseView) -> DatabaseManagerView {
        DatabaseManagerView {
            stores: self.stores.update(
                position,
                StoreView { database, ..self.stores[position] },
            ),
            ..self
        }
    }
}

/// A registry stays in order when a store is replaced by one that meets
/// its constraints, and every handle finds what it found before.
pub proof fn lemma_store_replaced(before: DatabaseManagerView, position: int, database: DatabaseView)
    requires
        before.wf(),
        database.wf(),
        0 <= position < before.stores.len(),
    ensures
        before.with_database(position, database).wf(),
        forall|id: Seq<char>| before.with_database(position, database).has(id) == before.has(id),
        forall|id: Seq<char>, serial: u64|
            before.with_database(position, database).position(id, serial) == before.position(
                id,
                serial,
            ),
{
    let after = before.with_database(position, database);
    assert forall|i: int, j: int| 0 <= i < j < after.stores.len() implies (
    #[trigger] after.stores[i]).id != (#[trigger] after.stores[j]).id by {
        assert(after.stores[i].id == before.stores[i].id);
        assert(after.stores[j].id == before.stores[j].id);
    }
    assert forall|i: int| 0 <= i < after.stores.len() implies (
    #[trigger] after.stores[i]).database.wf() && after.stores[i].serial < after.next_serial by {
        if i != position {
            assert(after.stores[i] == before.stores[i]);
        }
    }
    assert forall|id: Seq<char>| after.has(id) == before.has(id) by {
        if before.has(id) {
            let k = before.index_of(id);
            assert(after.stores[k].id == id);
        }
        if after.has(id) {
            let k = after.index_of(id);
            assert(before.stores[k].id == id);
        }
    }
    assert forall|id: Seq<char>, serial: u64|
        after.position(id, serial) == before.position(id, serial) by {
        if before.has(id) {
            let a = before.index_of(id);
            let b = after.index_of(id);
            assert(after.stores[a].id == id);
            assert(before.stores[b].id == id);
            assert(before.stores[a].id == before.stores[b].id);
            assert(a == b);
            assert(after.stores[a].serial == before.stores[a].serial);
        }
    }
}

/// The path of the file of the context `id` below the directory `db_dir`.
pub open spec fn store_path(db_dir: Seq<char>, id: Seq<char>) -> Seq<char> {
    db_dir + seq!['/'] + id + seq!['.', 's', 'q', 'l', 'i', 't', 'e', '3']
}

/// The registry of the stores of all contexts.
pub struct DatabaseManager {
    db_dir: String,
    stores: Vec<Store>,
    next_serial: u64,
}

impl View for DatabaseManager {
    type V = DatabaseManagerView;

    closed spec fn view(&self) -> DatabaseManagerView {
        DatabaseManagerView {
            db_dir: self.db_dir@,
            stores: Seq::new(self.stores@.len(), |i: int| self.stores@[i].view()),
            next_serial: self.next_serial,
        }
    }
}

impl DatabaseManager {
    /// Whether the registry meets its constraints.
    pub open spec fn wf(&self) -> bool {
        self@.wf()
    }

    /// A registry without stores, for files below `db_dir`.
    pub fn new(db_dir: &str) -> (manager: DatabaseManager)
        ensures
            manager.wf(),
            manager@ == (DatabaseManagerView {
                db_dir: db_dir@,
                stores: Seq::empty(),
                next_serial: 0,
            }),
    {
        let manager = DatabaseManager {
            db_dir: db_dir.to_owned(),
            stores: Vec::new(),
            next_serial: 0,
        };
        proof {
            assert(manager@.stores =~= Seq::empty());
        }
        manager
    }

    /// The path of the file in which the store of the context `id` is kept.
    pub fn resolve_path(&self, id: &str) -> (path: String)
        ensures
            path@ == store_path(self@.db_dir, id@),
    {
        let mut path = self.db_dir.clone();
        path.push('/');
        let chars = crate::engine::model::text::chars_of(id);
        let mut i: usize = 0;
        while i < chars.len()
            invariant
                i <= chars.len(),
                chars@ == id@,
                path@ == self@.db_dir + seq!['/'] + id@.take(i as int),
            decreases chars.len() - i,
        {
            path.push(chars[i]);
            proof {
                assert(id@.take(i + 1) =~= id@.take(i as int).push(id@[i as int]));
                assert(path@ =~= self@.db_dir + seq!['/'] + id@.take(i + 1));
            }
            i = i + 1;
        }
        proof {
            assert(id@.take(i as int) =~= id@);
        }
        path.push('.');
        path.push('s');
        path.push('q');
        path.push('l');
        path.push('i');
        path.push('t');
        path.push('e');
        path.push('3');
        proof {
            assert(path@ =~= store_path(self@.db_dir, id@));
        }
        path
    }

    /// The position of the store of the context `id`.
    fn find(&self, id: &str) -> (found: Option<usize>)
        ensures
            match found {
                Some(i) => i < self@.stores.len() && self@.stores[i as int].id == id@,
                None => !self@.has(id@),
            },
    {
        let wanted = id.to_owned();
        let mut i: usize = 0;
        while i < self.stores.len()
            invariant
                i <= self.stores.len(),
                wanted@ == id@,
                forall|j: int| 0 <= j < i ==> (#[trigger] self@.stores[j]).id != id@,
            decreases self.stores.len() - i,
        {
            if self.stores[i].id == wanted {
                return Some(i);
            }
            i = i + 1;
        }
        None
    }

    /// Whether there is a store for the context `id`.
    pub fn store_exists(&self, id: &str) -> (found: bool)
        ensures
            found == self@.has(id@),
    {
        self.find(id).is_some()
    }

    /// The position of the store that was created for the context `id`
    /// under the serial number `serial`, if it is still there.
    pub fn locate(&self, id: &str, serial: u64) -> (found: Option<usize>)
        requires
            self.wf(),
        ensures
            match found {
                Some(i) => self@.position(id@, serial) == Some(i as int) && i
                    < self@.stores.len(),
                None => self@.position(id@, serial) is None,
            },
    {
        match self.find(id) {
            Some(i) => {
                proof {
                    let k = self@.index_of(id@);
                    assert(self@.stores[i as int].id == self@.stores[k].id);
                }
                if self.stores[i].serial == serial {
                    Some(i)
                } else {
                    None
                }
            },
            None => None,
        }
    }

    /// Opens the store of the context `id`, creating an empty one where
    /// there is none, and returns the serial number under which it was
    /// created. When the serial numbers are used up, no store can be
    /// created: `StoreUnavailable`.
    pub fn load(&mut self, id: &str) -> (r: Result<u64, EngineError>)
        requires
            old(self).wf(),
        ensures
            final(self).wf(),
            if old(self)@.has(id@) {
                r == Ok::<u64, EngineError>(old(self)@.stores[old(self)@.index_of(id@)].serial)
                    && final(self)@ == old(self)@
            } else {
                self::manager_adds(old(self)@, final(self)@, id@, DatabaseView::empty(), r)
            },
    {
        match self.find(id) {
            Some(i) => {
                proof {
                    let k = self@.index_of(id@);
                    assert(self@.stores[i as int].id == self@.stores[k].id);
                }
                Ok(self.stores[i].serial)
            },
            None => self.install(id, Database::new()),
        }
    }

    /// Registers `database` as the store of the context `id`, where there
    /// is none yet, and returns the serial number of the new store. Where
    /// there is one already, or the serial numbers are used up:
    /// `StoreUnavailable`.
    pub fn install(&mut self, id: &str, database: Database) -> (r: Result<u64, EngineError>)
        requires
            old(self).wf(),
            database.wf(),
        ensures
            final(self).wf(),
            if old(self)@.has(id@) {
                r == Err::<u64, EngineError>(EngineError::StoreUnavailable)
                    && final(self)@ == old(self)@
            } else {
                self::manager_adds(old(self)@, final(self)@, id@, database@, r)
            },
    {
        if self.find(id).is_some() || self.next_serial == u64::MAX {
            return Err(EngineError::StoreUnavailable);
        }
        let serial = self.next_serial;
        let ghost before = self@;
        self.stores.push(Store { id: id.to_owned(), serial, database });
        self.next_serial = serial + 1;
        proof {
            assert(self@.stores =~= before.stores.push(
                StoreView { id: id@, serial, database: database@ },
            ));
            assert forall|i: int, j: int| 0 <= i < j < self@.stores.len() implies (
            #[trigger] self@.stores[i]).id != (#[trigger] self@.stores[j]).id by {
                assert(self@.stores[i] == before.stores[i]);
                if j < before.stores.len() {
                    assert(self@.stores[j] == before.stores[j]);
                }
            }
            assert forall|i: int| 0 <= i < self@.stores.len() implies (
            #[trigger] self@.stores[i]).database.wf() && self@.stores[i].serial
                < self@.next_serial by {
                if i < before.stores.len() {
                    assert(self@.stores[i] == before.stores[i]);
                }
            }
        }
        Ok(serial)
    }

    /// Removes the store of the context `id`. Where there is none:
    /// `StoreUnavailable`.
    pub fn drop(&mut self, id: &str) -> (r: Result<(), EngineError>)
        requires
            old(self).wf(),
        ensures
            final(self).wf(),
            !final(self)@.has(id@),
            final(self)@.db_dir == old(self)@.db_dir,
            final(self)@.next_serial == old(self)@.next_serial,
            if old(self)@.has(id@) {
                r is Ok && final(self)@.stores == old(self)@.stores.remove(
                    old(self)@.index_of(id@),
                )
            } else {
                r == Err::<(), EngineError>(EngineError::StoreUnavailable)
                    && final(self)@ == old(self)@
            },
    {
        match self.find(id) {
            Some(i) => {
                let ghost before = self@;
                proof {
                    let k = before.index_of(id@);
                    assert(before.stores[i as int].id == before.stores[k].id);
                }
                self.stores.remove(i);
                proof {
                    let after = self@.stores;
                    assert(after =~= before.stores.remove(i as int));
                    assert forall|a: int| 0 <= a < after.len() implies (#[trigger] after[a]).id
                        != id@ && after[a].database.wf() && after[a].serial < self@.next_serial by {
                        if a < i {
                            assert(after[a] == before.stores[a]);
                        } else {
                            assert(after[a] == before.stores[a + 1]);
                        }
                    }
                    assert forall|a: int, b: int| 0 <= a < b < after.len() implies (
                    #[trigger] after[a]).id != (#[trigger] after[b]).id by {
                        let x = if a < i {
                            a
                        } else {
                            a + 1
                        };
                        let y = if b < i {
                            b
                        } else {
                            b + 1
                        };
                        assert(after[a] == before.stores[x]);
                        assert(after[b] == before.stores[y]);
                    }
                }
                Ok(())
            },
            None => Err(EngineError::StoreUnavailable),
        }
    }

    /// The store at `position`.
    pub fn database(&self, position: usize) -> (database: &Database)
        requires
            position < self@.stores.len(),
        ensures
            database@ == self@.stores[position as int].database,
    {
        &self.stores[position].database
    }

    /// The store at `position`, to be changed in place.
    pub fn database_mut(&mut self, position: usize) -> (database: &mut Database)
        requires
            position < old(self)@.stores.len(),
        ensures
            database@ == old(self)@.stores[position as int].database,
            final(self)@.db_dir == old(self)@.db_dir,
            final(self)@.next_serial == old(self)@.next_serial,
            final(self)@.stores == old(self)@.stores.update(
                position as int,
                StoreView { database: final(database)@, ..old(self)@.stores[position as int] },
            ),
    {
        &mut self.stores[position].database
    }

    /// Puts `database` in the place of the store at `position`.
    pub fn replace(&mut self, position: usize, database: Database)
        requires
            old(self).wf(),
            database.wf(),
            position < old(self)@.stores.len(),
        ensures
            final(self).wf(),
            final(self)@ == (DatabaseManagerView {
                stores: old(self)@.stores.update(
                    position as int,
                    StoreView { database: database@, ..old(self)@.stores[position as int] },
                ),
                ..old(self)@
            }),
    {
        let ghost before = self@;
        let store = Store {
            id: self.stores[position].id.clone(),
            serial: self.stores[position].serial,
            database,
        };
        self.stores.set(position, store);
        proof {
            let after = before.stores.update(
                position as int,
                StoreView { database: database@, ..before.stores[position as int] },
            );
            assert(self@.stores =~= after);
            assert forall|i: int, j: int| 0 <= i < j < after.len() implies (#[trigger] after[i]).id
                != (#[trigger] after[j]).id by {
                assert(after[i].id == before.stores[i].id);
                assert(after[j].id == before.stores[j].id);
            }
            assert forall|i: int| 0 <= i < after.len() implies (#[trigger] after[i]).database.wf()
                && after[i].serial < before.next_serial by {
                if i != position {
                    assert(after[i] == before.stores[i]);
                }
            }
        }
    }
}

/// Whether `after` is the registry `before` with a new store for the
/// context `id` that holds `database`, and `r` the serial number of it; or,
/// where the serial numbers are used up, `after` is `before` and `r` is
/// `StoreUnavailable`.
pub open spec fn manager_adds(
    before: DatabaseManagerView,
    after: DatabaseManagerView,
    id: Seq<char>,
    database: DatabaseView,
    r: Result<u64, EngineError>,
) -> bool {
    if before.next_serial < u64::MAX {
        &&& r == Ok::<u64, EngineError>(before.next_serial)
        &&& after == (DatabaseManagerView {
            stores: before.stores.push(StoreView { id, serial: before.next_serial, database }),
            next_serial: (before.next_serial + 1) as u64,
            ..before
        })
    } else {
        r == Err::<u64, EngineError>(EngineError::StoreUnavailable) && after == before
    }
}

} // verus!
