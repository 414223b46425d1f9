//! The token dictionary: tokens by text and by id, and how they are written.

use crate::engine::model::codec::distinct_forms;
use crate::engine::model::codec::forms_view;
use crate::engine::model::database::next_identifier;
use crate::engine::model::database::pair_views;
use crate::engine::model::database::row_token;
use crate::engine::model::database::token_views;
use crate::engine::model::database::upserted_all;
use crate::engine::model::database::word_rows;
use crate::engine::model::database::Database;
use crate::engine::model::database::DatabaseView;
use crate::engine::model::error::EngineError;
use crate::engine::model::model::bumped;
use crate::engine::model::text::chars_of;
use crate::engine::model::text::chars_precede;
use crate::engine::model::text::lemma_precedes_total;
use crate::engine::model::text::lowercase_all;
use crate::engine::model::text::lowercase_of;
use crate::engine::model::text::lowered;
use crate::engine::model::text::precedes;
use crate::engine::model::text::texts_of;
use vstd::prelude::*;

verus! {

/// A learned token: its id, how often it was seen in any capitalisation,
/// its lower-case text, and how often each capitalisation was seen.
#[derive(Debug)]
pub struct DictionaryToken {
    id: i32,
    case_insensitive_occurrences: u32,
    case_insensitive_representation: String,
    capitalised_forms: Vec<(String, u32)>,
}

/// What a token holds.
pub struct DictionaryTokenView {
    pub id: i32,
    pub occurrences: u32,
    pub text: Seq<char>,
    pub forms: Seq<(Seq<char>, u32)>,
}

impl View for DictionaryToken {
    type V = DictionaryTokenView;

    closed spec fn view(&self) -> DictionaryTokenView {
        DictionaryTokenView {
            id: self.id,
            occurrences: self.case_insensitive_occurrences,
            text: self.case_insensitive_representation@,
            forms: forms_view(self.capitalised_forms@),
        }
    }
}

/// Whether the form at `i` is one that is written: none has a higher count,
/// and of those with the same count none comes before it.
pub open spec fn is_best_form(forms: Seq<(Seq<char>, u32)>, i: int) -> bool {
    &&& 0 <= i < forms.len()
    &&& forall|j: int|
        0 <= j < forms.len() ==> (#[trigger] forms[j]).1 < forms[i].1 || (forms[j].1 == forms[i].1
            && !precedes(forms[j].0, forms[i].0))
}

/// The position of a form among `forms`, if it is there.
pub open spec fn form_index(forms: Seq<(Seq<char>, u32)>, form: Seq<char>) -> Option<int> {
    if exists|i: int| 0 <= i < forms.len() && (#[trigger] forms[i]).0 == form {
        Some(choose|i: int| 0 <= i < forms.len() && (#[trigger] forms[i]).0 == form)
    } else {
        None
    }
}

/// The forms after one more observation of `form`: its count goes up by
/// one, or it is added at the end with a count of one.
pub open spec fn forms_observed(forms: Seq<(Seq<char>, u32)>, form: Seq<char>) -> Seq<
    (Seq<char>, u32),
> {
    match form_index(forms, form) {
        Some(i) => forms.update(i, (form, bumped(forms[i].1))),
        None => forms.push((form, 1u32)),
    }
}

impl DictionaryTokenView {
    /// No capitalised form is listed twice.
    pub open spec fn wf(self) -> bool {
        distinct_forms(self.forms)
    }

    /// The token after one more observation in the capitalisation `form`.
    pub open spec fn observed(self, form: Seq<char>) -> DictionaryTokenView {
        DictionaryTokenView {
            occurrences: bumped(self.occurrences),
            forms: forms_observed(self.forms, form),
            ..self
        }
    }

    /// The token with its capitalised forms forgotten.
    pub open spec fn scrubbed(self) -> DictionaryTokenView {
        DictionaryTokenView { forms: Seq::empty(), ..self }
    }

    /// Whether `written` is how the token is written: the form with the
    /// highest count, the first in lexicographic order among several, and
    /// the lower-case text where no form is known.
    pub open spec fn written_as(self, written: Seq<char>) -> bool {
        if self.forms.len() == 0 {
            written == self.text
        } else {
            exists|i: int| is_best_form(self.forms, i) && written == (#[trigger] self.forms[i]).0
        }
    }
}

impl DictionaryTokenView {
    /// How the token is written.
    pub open spec fn written(self) -> Seq<char> {
        choose|written: Seq<char>| self.written_as(written)
    }
}

/// A token is written in one way only.
pub proof fn lemma_written_once(token: DictionaryTokenView, a: Seq<char>, b: Seq<char>)
    requires
        token.written_as(a),
        token.written_as(b),
    ensures
        a == b,
{
    if token.forms.len() > 0 {
        let i = choose|i: int| is_best_form(token.forms, i) && a == (#[trigger] token.forms[i]).0;
        let j = choose|j: int| is_best_form(token.forms, j) && b == (#[trigger] token.forms[j]).0;
        assert(token.forms[j].1 == token.forms[i].1);
        lemma_precedes_total(a, b);
    }
}

/// Observing a form keeps the forms distinct.
pub proof fn lemma_observed_distinct(forms: Seq<(Seq<char>, u32)>, form: Seq<char>)
    requires
        distinct_forms(forms),
    ensures
        distinct_forms(forms_observed(forms, form)),
{
    let after = forms_observed(forms, form);
    match form_index(forms, form) {
        Some(i) => {
            assert forall|a: int, b: int| 0 <= a < b < after.len() implies (#[trigger] after[a]).0
                != (#[trigger] after[b]).0 by {
                assert(after[a].0 == forms[a].0);
                assert(after[b].0 == forms[b].0);
            }
        },
        None => {
            assert forall|a: int, b: int| 0 <= a < b < after.len() implies (#[trigger] after[a]).0
                != (#[trigger] after[b]).0 by {
                assert(after[a] == forms[a]);
                if b < forms.len() {
                    assert(after[b] == forms[b]);
                }
            }
        },
    }
}

impl DictionaryToken {
    /// Whether no capitalised form is listed twice.
    pub open spec fn wf(&self) -> bool {
        self@.wf()
    }

    pub fn new(
        id: i32,
        case_insensitive_occurrences: u32,
        case_insensitive_representation: String,
        capitalised_forms: Vec<(String, u32)>,
    ) -> (token: DictionaryToken)
        requires
            distinct_forms(forms_view(capitalised_forms@)),
        ensures
            token.wf(),
            token@ == (DictionaryTokenView {
                id,
                occurrences: case_insensitive_occurrences,
                text: case_insensitive_representation@,
                forms: forms_view(capitalised_forms@),
            }),
    {
        DictionaryToken {
            id,
            case_insensitive_occurrences,
            case_insensitive_representation,
            capitalised_forms,
        }
    }

    pub fn get_id(&self) -> (id: &i32)
        ensures
            *id == self@.id,
    {
        &self.id
    }

    pub fn get_case_insensitive_occurrences(&self) -> (occurrences: &u32)
        ensures
            *occurrences == self@.occurrences,
    {
        &self.case_insensitive_occurrences
    }

    pub fn get_case_insensitive_representation(&self) -> (text: &String)
        ensures
            text@ == self@.text,
    {
        &self.case_insensitive_representation
    }

    pub fn get_capitalised_forms(&self) -> (forms: &Vec<(String, u32)>)
        ensures
            forms_view(forms@) == self@.forms,
    {
        &self.capitalised_forms
    }

    /// How the token is written. The first token of a sentence is written
    /// like any other: by the capitalisation seen most often.
    pub fn represent(&self, first_token: bool) -> (written: String)
        ensures
            self@.written_as(written@),
            written@ == self@.written(),
    {
        let written = self.represent_by_count();
        proof {
            lemma_written_once(self@, written@, self@.written());
        }
        written
    }

    /// The capitalisation seen most often, the first in lexicographic order
    /// among several, and the lower-case text where none was seen.
    fn represent_by_count(&self) -> (written: String)
        ensures
            self@.written_as(written@),
    {
        let n = self.capitalised_forms.len();
        if n == 0 {
            return self.case_insensitive_representation.clone();
        }
        let ghost forms = forms_view(self.capitalised_forms@);
        let mut best: usize = 0;
        let mut best_chars = chars_of(self.capitalised_forms[0].0.as_str());
        let mut i: usize = 1;
        proof {
            lemma_precedes_total(forms[0].0, forms[0].0);
        }
        while i < n
            invariant
                n == self.capitalised_forms.len(),
                forms == forms_view(self.capitalised_forms@),
                1 <= i <= n,
                best < i,
                best_chars@ == forms[best as int].0,
                forall|j: int|
                    0 <= j < i ==> (#[trigger] forms[j]).1 < forms[best as int].1 || (forms[j].1
                        == forms[best as int].1 && !precedes(forms[j].0, forms[best as int].0)),
            decreases n - i,
        {
            let count = self.capitalised_forms[i].1;
            let best_count = self.capitalised_forms[best].1;
            assert(forms[i as int].1 == count && forms[best as int].1 == best_count);
            if count >= best_count {
                let chars = chars_of(self.capitalised_forms[i].0.as_str());
                assert(chars@ == forms[i as int].0);
                let earlier = chars_precede(&chars, &best_chars);
                if count > best_count || earlier {
                    proof {
                        let old_best = forms[best as int];
                        let new_best = forms[i as int];
                        assert forall|j: int| 0 <= j <= i implies (#[trigger] forms[j]).1
                            < new_best.1 || (forms[j].1 == new_best.1 && !precedes(
                            forms[j].0,
                            new_best.0,
                        )) by {
                            lemma_precedes_total(new_best.0, new_best.0);
                            if j < i && forms[j].1 == new_best.1 && precedes(
                                forms[j].0,
                                new_best.0,
                            ) {
                                lemma_precedes_transitive(forms[j].0, new_best.0, old_best.0);
                            }
                        }
                    }
                    best = i;
                    best_chars = chars;
                }
            }
            i = i + 1;
        }
        proof {
            assert(is_best_form(forms, best as int));
        }
        self.capitalised_forms[best].0.clone()
    }

    /// Counts one more observation of the token in the capitalisation
    /// `form`.
    pub fn observe(&mut self, form: &str)
        requires
            old(self).wf(),
        ensures
            final(self).wf(),
            final(self)@ == old(self)@.observed(form@),
    {
        let ghost forms = self@.forms;
        proof {
            lemma_observed_distinct(forms, form@);
        }
        if self.case_insensitive_occurrences < u32::MAX {
            self.case_insensitive_occurrences = self.case_insensitive_occurrences + 1;
        }
        let wanted = form.to_owned();
        let mut i: usize = 0;
        while i < self.capitalised_forms.len()
            invariant
                i <= self.capitalised_forms.len(),
                wanted@ == form@,
                self.id == old(self).id,
                self.case_insensitive_representation == old(self).case_insensitive_representation,
                self.case_insensitive_occurrences == bumped(
                    old(self).case_insensitive_occurrences,
                ),
                forms == old(self)@.forms,
                forms == forms_view(self.capitalised_forms@),
                distinct_forms(forms),
                forall|j: int| 0 <= j < i ==> (#[trigger] forms[j]).0 != form@,
            decreases self.capitalised_forms.len() - i,
        {
            if self.capitalised_forms[i].0 == wanted {
                proof {
                    assert(forms[i as int].0 == form@);
                    let chosen = form_index(forms, form@)->0;
                    assert(forms[chosen].0 == forms[i as int].0);
                    assert(chosen == i);
                }
                let count = self.capitalised_forms[i].1;
                let next: u32 = if count < u32::MAX {
                    count + 1
                } else {
                    count
                };
                self.capitalised_forms.set(i, (wanted, next));
                proof {
                    assert(forms_view(self.capitalised_forms@) =~= forms_observed(forms, form@));
                }
                return ;
            }
            i = i + 1;
        }
        self.capitalised_forms.push((wanted, 1));
        proof {
            assert(form_index(forms, form@) is None);
            assert(forms_view(self.capitalised_forms@) =~= forms_observed(forms, form@));
        }
    }

    /// Forgets the capitalised forms of the token.
    pub fn scrub(&mut self)
        ensures
            final(self).wf(),
            final(self)@ == old(self)@.scrubbed(),
    {
        self.capitalised_forms = Vec::new();
        proof {
            assert(forms_view(self.capitalised_forms@) =~= Seq::empty());
        }
    }
}

/// The order of texts is transitive.
pub proof fn lemma_precedes_transitive(a: Seq<char>, b: Seq<char>, c: Seq<char>)
    requires
        precedes(a, b),
        precedes(b, c),
    ensures
        precedes(a, c),
    decreases a.len(),
{
    if a.len() > 0 && b.len() > 0 && c.len() > 0 {
        if a[0] == b[0] && b[0] == c[0] {
            lemma_precedes_transitive(a.skip(1), b.skip(1), c.skip(1));
        }
    }
}

/// Whether the token at `i` is the first of this text.
pub open spec fn is_first_with_text(
    tokens: Seq<DictionaryTokenView>,
    text: Seq<char>,
    i: int,
) -> bool {
    &&& 0 <= i < tokens.len()
    &&& tokens[i].text == text
    &&& forall|j: int| 0 <= j < i ==> (#[trigger] tokens[j]).text != text
}

/// The position of the first token of this text, if there is one.
pub open spec fn position_of(tokens: Seq<DictionaryTokenView>, text: Seq<char>) -> Option<int> {
    if exists|i: int| is_first_with_text(tokens, text, i) {
        Some(choose|i: int| is_first_with_text(tokens, text, i))
    } else {
        None
    }
}

/// Where learning stands: the tokens touched so far, the id that the next
/// new token gets, and the ids of the texts learned so far.
pub struct Learning {
    pub tokens: Seq<DictionaryTokenView>,
    pub next: int,
    pub ids: Seq<i32>,
}

/// The token that a text seen for the first time becomes.
pub open spec fn new_token(id: i32, text: Seq<char>) -> DictionaryTokenView {
    DictionaryTokenView {
        id,
        occurrences: 1,
        text: lowercase_of(text),
        forms: seq![(text, 1u32)],
    }
}

/// Learning one text: the token of its lower-case form counts one more
/// observation in this capitalisation, or a new token is made for it with
/// the next id. There is no next id beyond the highest one.
pub open spec fn learned_one(state: Learning, text: Seq<char>) -> Option<Learning> {
    match position_of(state.tokens, lowercase_of(text)) {
        Some(i) => Some(
            Learning {
                tokens: state.tokens.update(i, state.tokens[i].observed(text)),
                next: state.next,
                ids: state.ids.push(state.tokens[i].id),
            },
        ),
        None => if state.next > i32::MAX {
            None
        } else {
            Some(
                Learning {
                    tokens: state.tokens.push(new_token(state.next as i32, text)),
                    next: state.next + 1,
                    ids: state.ids.push(state.next as i32),
                },
            )
        },
    }
}

/// Learning texts one by one.
pub open spec fn learned(state: Learning, texts: Seq<Seq<char>>) -> Option<Learning>
    decreases texts.len(),
{
    if texts.len() == 0 {
        Some(state)
    } else {
        match learned(state, texts.drop_last()) {
            Some(before) => learned_one(before, texts.last()),
            None => None,
        }
    }
}

/// Where learning a first part of the texts runs out of ids, learning all
/// of them does.
pub proof fn lemma_learned_prefix(state: Learning, texts: Seq<Seq<char>>, k: int)
    requires
        0 <= k <= texts.len(),
        learned(state, texts.take(k)) is None,
    ensures
        learned(state, texts) is None,
    decreases texts.len(),
{
    if k == texts.len() {
        assert(texts.take(k) =~= texts);
    } else {
        assert(texts.drop_last().take(k) =~= texts.take(k));
        lemma_learned_prefix(state, texts.drop_last(), k);
    }
}

/// Learning gives one id for each text, in their order, and a text seen
/// for the first time gets the id that was next: ids are handed out in
/// steps of one.
pub proof fn lemma_learned_ids(state: Learning, texts: Seq<Seq<char>>)
    requires
        learned(state, texts) is Some,
        i32::MIN <= state.next,
    ensures
        learned(state, texts)->0.ids.len() == state.ids.len() + texts.len(),
        learned(state, texts)->0.next >= state.next,
        learned(state, texts)->0.next - state.next == learned(state, texts)->0.tokens.len()
            - state.tokens.len(),
        forall|i: int|
            state.tokens.len() <= i < learned(state, texts)->0.tokens.len() ==> (
            #[trigger] learned(state, texts)->0.tokens[i]).id == state.next + (i
                - state.tokens.len()),
    decreases texts.len(),
{
    if texts.len() > 0 {
        lemma_learned_ids(state, texts.drop_last());
        let before = learned(state, texts.drop_last())->0;
        let after = learned(state, texts)->0;
        assert forall|i: int| state.tokens.len() <= i < after.tokens.len() implies (
        #[trigger] after.tokens[i]).id == state.next + (i - state.tokens.len()) by {
            if i < before.tokens.len() {
                assert(after.tokens[i].id == before.tokens[i].id);
            } else {
                assert(after.tokens[i].id == before.next);
            }
        }
    }
}

/// The token dictionary of one context.
pub struct Dictionary<'d> {
    non_keyword_tokens: &'d Vec<String>,
}

impl<'d> Dictionary<'d> {
    /// A dictionary that keeps the tokens among `non_keyword_tokens` from
    /// being keywords.
    pub fn new(non_keyword_tokens: &'d Vec<String>) -> (dictionary: Dictionary<'d>)
        ensures
            dictionary.non_keywords() == texts_of(non_keyword_tokens@),
    {
        Dictionary { non_keyword_tokens }
    }

    /// The texts that are never keywords.
    pub closed spec fn non_keywords(&self) -> Seq<Seq<char>> {
        texts_of(self.non_keyword_tokens@)
    }

    /// Whether `text` is one that is never a keyword.
    pub fn is_non_keyword(&self, text: &String) -> (b: bool)
        ensures
            b == self.non_keywords().contains(text@),
    {
        crate::engine::model::text::text_in(self.non_keyword_tokens, text)
    }

    /// The tokens of the lower-case forms of `texts`, as far as the
    /// dictionary holds them. None is made.
    pub fn lookup_by_text(&self, database: &Database, texts: &Vec<String>) -> (r: Result<
        Vec<DictionaryToken>,
        EngineError,
    >)
        ensures
            r is Ok,
            token_views(r->Ok_0@) == database@.words_by_token(lowered(texts_of(texts@))),
            forall|i: int| 0 <= i < r->Ok_0@.len() ==> (#[trigger] r->Ok_0@[i]).wf(),
    {
        let canonical = lowercase_all(texts);
        database.dictionary_get_words_by_token(&canonical)
    }

    /// The tokens of `ids`. An id that the dictionary does not hold is a
    /// fault of the caller: `NotFound`.
    pub fn lookup_by_id(&self, database: &Database, ids: &Vec<i32>) -> (r: Result<
        Vec<DictionaryToken>,
        EngineError,
    >)
        ensures
            match r {
                Ok(tokens) => {
                    &&& forall|k: int| 0 <= k < ids@.len() ==> database@.has_id(#[trigger] ids@[k])
                    &&& token_views(tokens@) == database@.words_by_id(ids@)
                    &&& forall|i: int| 0 <= i < tokens@.len() ==> (#[trigger] tokens@[i]).wf()
                },
                Err(e) => e == EngineError::NotFound && exists|k: int|
                    0 <= k < ids@.len() && !database@.has_id(#[trigger] ids@[k]),
            },
    {
        let mut k: usize = 0;
        while k < ids.len()
            invariant
                k <= ids.len(),
                forall|j: int| 0 <= j < k ==> database@.has_id(#[trigger] ids@[j]),
            decreases ids.len() - k,
        {
            if !database.dictionary_has_identifier(ids[k]) {
                return Err(EngineError::NotFound);
            }
            k = k + 1;
        }
        database.dictionary_get_words_by_id(ids)
    }

    /// The text and id of every token whose text has one of `substrings` as
    /// a part.
    pub fn enumerate_by_substring(&self, database: &Database, substrings: &Vec<String>) -> (r:
        Result<Vec<(String, i32)>, EngineError>)
        ensures
            r is Ok,
            pair_views(r->Ok_0@) == database@.words_by_substring(texts_of(substrings@)),
    {
        database.dictionary_enumerate_words_by_substring(substrings)
    }

    /// The text and id of up to `count` tokens, chosen by `seed`.
    pub fn sample_random(&self, database: &Database, count: u8, seed: u64) -> (r: Result<
        Vec<(String, i32)>,
        EngineError,
    >)
        ensures
            r is Ok,
            pair_views(r->Ok_0@) == database@.random_words(count, seed),
    {
        database.dictionary_get_random_words(count, seed)
    }

    /// How the token `id` is written. An id that the dictionary does not
    /// hold is a fault of the caller: `NotFound`.
    pub fn render(&self, database: &Database, id: i32, is_sentence_initial: bool) -> (r: Result<
        String,
        EngineError,
    >)
        requires
            database.wf(),
        ensures
            match r {
                Ok(written) => database@.has_id(id) && written@ == row_token(
                    database@.dictionary[database@.index_of_id(id)],
                ).written(),
                Err(e) => e == EngineError::NotFound && !database@.has_id(id),
            },
    {
        match database.dictionary_get_word(id) {
            Some(token) => Ok(token.represent(is_sentence_initial)),
            None => Err(EngineError::NotFound),
        }
    }

    /// The position of the first token of this text among `tokens`.
    fn find_token(tokens: &Vec<DictionaryToken>, text: &String) -> (found: Option<usize>)
        ensures
            match found {
                Some(i) => position_of(token_views(tokens@), text@) == Some(i as int) && i
                    < tokens@.len(),
                None => position_of(token_views(tokens@), text@) is None,
            },
    {
        let ghost views = token_views(tokens@);
        let mut i: usize = 0;
        while i < tokens.len()
            invariant
                i <= tokens.len(),
                views == token_views(tokens@),
                forall|j: int| 0 <= j < i ==> (#[trigger] views[j]).text != text@,
            decreases tokens.len() - i,
        {
            if *tokens[i].get_case_insensitive_representation() == *text {
                proof {
                    assert(is_first_with_text(views, text@, i as int));
                    let chosen = choose|c: int| is_first_with_text(views, text@, c);
                    assert(chosen == i) by {
                        if chosen < i {
                            assert(views[chosen].text != text@);
                        }
                        if i < chosen {
                            assert(views[i as int].text == text@);
                        }
                    }
                }
                return Some(i);
            }
            i = i + 1;
        }
        proof {
            assert forall|c: int| !is_first_with_text(views, text@, c) by {
                if 0 <= c < views.len() {
                    assert(views[c].text != text@);
                }
            }
        }
        None
    }

    /// Learns `texts` in their order: for each, the token of its lower-case
    /// form is found or made with the next id, its occurrence count goes up
    /// by one, and so does the count of this capitalisation. Returns the id
    /// of each text. Where ids run out or the store refuses the tokens,
    /// nothing is learned.
    pub fn learn(&self, database: &mut Database, texts: &Vec<String>) -> (r: Result<
        Vec<i32>,
        EngineError,
    >)
        requires
            old(database).wf(),
        ensures
            final(database).wf(),
            ({
                let start = Learning {
                    tokens: old(database)@.words_by_token(lowered(texts_of(texts@))),
                    next: next_identifier(old(database)@.dictionary),
                    ids: Seq::empty(),
                };
                match learned(start, texts_of(texts@)) {
                    Some(end) => match word_rows(end.tokens) {
                        Some(rows) => match upserted_all(old(database)@.dictionary, rows) {
                            Some(dictionary) => {
                                &&& r is Ok
                                &&& r->Ok_0@ == end.ids
                                &&& final(database)@ == (DatabaseView {
                                    dictionary,
                                    ..old(database)@
                                })
                            },
                            None => r == Err::<Vec<i32>, EngineError>(
                                EngineError::TransactionFailure,
                            ) && final(database)@ == old(database)@,
                        },
                        None => r == Err::<Vec<i32>, EngineError>(EngineError::TransactionFailure)
                            && final(database)@ == old(database)@,
                    },
                    None => r == Err::<Vec<i32>, EngineError>(EngineError::TransactionFailure)
                        && final(database)@ == old(database)@,
                }
            }),
    {
        let canonical = lowercase_all(texts);
        let mut working = match database.dictionary_get_words_by_token(&canonical) {
            Ok(tokens) => tokens,
            Err(e) => {
                return Err(e);
            },
        };
        let mut next: i64 = match database.dictionary_get_next_identifier() {
            Ok(id) => id as i64,
            Err(_) => i32::MAX as i64 + 1,
        };
        proof {
            crate::engine::model::database::lemma_next_identifier(database@.dictionary);
        }
        let ghost all = texts_of(texts@);
        let ghost start = Learning {
            tokens: token_views(working@),
            next: next as int,
            ids: Seq::empty(),
        };
        let mut ids: Vec<i32> = Vec::new();
        let mut i: usize = 0;
        proof {
            assert(all.take(0) =~= Seq::empty());
            assert(texts_of(canonical@).len() == lowered(all).len());
        }
        while i < texts.len()
            invariant
                i <= texts.len(),
                *database == *old(database),
                database.wf(),
                all == texts_of(texts@),
                texts_of(canonical@) == lowered(all),
                canonical@.len() == texts@.len(),
                i32::MIN <= next <= i32::MAX + 1,
                start.tokens == old(database)@.words_by_token(lowered(all)),
                start.next == next_identifier(old(database)@.dictionary),
                start.ids == Seq::<i32>::empty(),
                learned(start, all.take(i as int)) == Some(
                    Learning { tokens: token_views(working@), next: next as int, ids: ids@ },
                ),
                forall|k: int| 0 <= k < working@.len() ==> (#[trigger] working@[k]).wf(),
            decreases texts.len() - i,
        {
            let ghost before = token_views(working@);
            proof {
                assert(all.take(i + 1).drop_last() =~= all.take(i as int));
                assert(all.take(i + 1).last() == texts@[i as int]@);
                assert(texts_of(canonical@)[i as int] == lowercase_of(all[i as int]));
                assert(canonical@[i as int]@ == lowercase_of(texts@[i as int]@));
            }
            match Self::find_token(&working, &canonical[i]) {
                Some(k) => {
                    let mut token = working.remove(k);
                    token.observe(texts[i].as_str());
                    ids.push(*token.get_id());
                    working.insert(k, token);
                    proof {
                        assert(token_views(working@) =~= before.update(
                            k as int,
                            before[k as int].observed(texts@[i as int]@),
                        ));
                    }
                },
                None => {
                    if next > i32::MAX as i64 {
                        proof {
                            lemma_learned_prefix(start, all, i + 1);
                        }
                        return Err(EngineError::TransactionFailure);
                    }
                    let id = next as i32;
                    let mut forms: Vec<(String, u32)> = Vec::new();
                    forms.push((texts[i].clone(), 1));
                    proof {
                        assert(forms_view(forms@) =~= seq![(texts@[i as int]@, 1u32)]);
                    }
                    working.push(DictionaryToken::new(id, 1, canonical[i].clone(), forms));
                    ids.push(id);
                    next = next + 1;
                    proof {
                        assert(token_views(working@) =~= before.push(
                            new_token(id, texts@[i as int]@),
                        ));
                    }
                },
            }
            i = i + 1;
        }
        proof {
            assert(all.take(i as int) =~= all);
        }
        match database.dictionary_set_words(&working) {
            Ok(_) => Ok(ids),
            Err(e) => Err(e),
        }
    }
}

} // verus!
