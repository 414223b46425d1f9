//! The banned-token filter: texts that may neither be learned nor said.

use crate::engine::model::database::banned_views;
use crate::engine::model::database::with_banned;
use crate::engine::model::database::without_banned;
use crate::engine::model::database::Database;
use crate::engine::model::database::DatabaseView;
use crate::engine::model::error::EngineError;
use crate::engine::model::sequences::lemma_filter_step;
use crate::engine::model::text::chars_of;
use crate::engine::model::text::contains;
use crate::engine::model::text::lowercase_of;
use crate::engine::model::text::string_of;
use crate::engine::model::text::trim;
use crate::engine::model::text::trimmed;
use crate::engine::model::text::lowered;
use crate::engine::model::text::str_contains;
use crate::engine::model::text::text_in;
use crate::engine::model::text::texts_of;
use crate::engine::model::text::to_lowercase;
use fnv::FnvHashMap;
use vstd::prelude::*;

verus! {

/// A banned text and, where the dictionary holds a token of that text, the
/// token's id.
#[derive(Debug)]
pub struct BannedToken {
    case_insensitive_representation: String,
    dictionary_id: Option<i32>,
}

/// What a banned token holds.
pub struct BannedTokenView {
    pub text: Seq<char>,
    pub dictionary_id: Option<i32>,
}

impl View for BannedToken {
    type V = BannedTokenView;

    closed spec fn view(&self) -> BannedTokenView {
        BannedTokenView {
            text: self.case_insensitive_representation@,
            dictionary_id: self.dictionary_id,
        }
    }
}

impl Clone for BannedToken {
    fn clone(&self) -> (copy: BannedToken)
        ensures
            copy@ == self@,
    {
        BannedToken {
            case_insensitive_representation: self.case_insensitive_representation.clone(),
            dictionary_id: self.dictionary_id,
        }
    }
}

impl BannedToken {
    pub fn new(case_insensitive_representation: String, dictionary_id: Option<i32>) -> (token:
        BannedToken)
        ensures
            token@ == (BannedTokenView { text: case_insensitive_representation@, dictionary_id }),
    {
        BannedToken { case_insensitive_representation, dictionary_id }
    }

    /// Whether `token` is this banned text.
    pub fn token_equal(&self, token: &str) -> (b: bool)
        ensures
            b == (self@.text == token@),
    {
        let other = token.to_owned();
        self.case_insensitive_representation == other
    }

    /// Whether this banned text is a part of `token`.
    pub fn token_contains(&self, token: &str) -> (b: bool)
        ensures
            b == contains(token@, self@.text),
    {
        str_contains(token, self.case_insensitive_representation.as_str())
    }

    pub fn get_dictionary_id(&self) -> (id: Option<i32>)
        ensures
            id == self@.dictionary_id,
    {
        self.dictionary_id
    }

    /// The banned text.
    pub fn get_case_insensitive_representation(&self) -> (text: &String)
        ensures
            text@ == self@.text,
    {
        &self.case_insensitive_representation
    }
}

/// The banned text that one line of a list stands for: the line in lower
/// case, without the white space at its start and at its end.
pub open spec fn listed_token(line: Seq<char>) -> Seq<char> {
    trimmed(lowercase_of(line))
}

/// The tokens read so far with the token of one more line, unless that
/// line is blank.
pub open spec fn with_line(tokens: Seq<Seq<char>>, line: Seq<char>) -> Seq<Seq<char>> {
    if listed_token(line).len() > 0 {
        tokens.push(listed_token(line))
    } else {
        tokens
    }
}

/// Where reading a list stands: the tokens of the lines that have ended,
/// and the characters of the line that has not.
pub struct Scan {
    pub tokens: Seq<Seq<char>>,
    pub line: Seq<char>,
}

/// Reading a list character by character: a line feed ends a line.
pub open spec fn scanned(content: Seq<char>) -> Scan
    decreases content.len(),
{
    if content.len() == 0 {
        Scan { tokens: Seq::empty(), line: Seq::empty() }
    } else {
        let before = scanned(content.drop_last());
        if content.last() == '\n' {
            Scan { tokens: with_line(before.tokens, before.line), line: Seq::empty() }
        } else {
            Scan { tokens: before.tokens, line: before.line.push(content.last()) }
        }
    }
}

/// The banned texts that a list holds, one to a line; blank lines are
/// skipped.
pub open spec fn banned_tokens_listed(content: Seq<char>) -> Seq<Seq<char>> {
    with_line(scanned(content).tokens, scanned(content).line)
}

/// Adds the token of `line` to `tokens`, unless the line is blank.
fn push_line(tokens: &mut Vec<String>, line: &Vec<char>)
    ensures
        texts_of(final(tokens)@) == with_line(texts_of(old(tokens)@), line@),
{
    let whole = string_of(line, 0, line.len());
    assert(line@.subrange(0, line@.len() as int) =~= line@);
    let lowered = to_lowercase(whole.as_str());
    let chars = chars_of(lowered.as_str());
    let token = trim(&chars);
    let ghost before = texts_of(tokens@);
    if token.as_str().unicode_len() > 0 {
        tokens.push(token);
        assert(texts_of(tokens@) =~= before.push(listed_token(line@)));
    }
}

/// Reads a list of banned texts, one to a line: each line is lower-cased
/// and freed of the white space around it, and blank lines are skipped.
pub fn process_banned_tokens_list(content: &str) -> (tokens: Vec<String>)
    ensures
        texts_of(tokens@) == banned_tokens_listed(content@),
{
    let chars = chars_of(content);
    let mut tokens: Vec<String> = Vec::new();
    let mut line: Vec<char> = Vec::new();
    let mut i: usize = 0;
    proof {
        assert(chars@.take(0) =~= Seq::empty());
        assert(texts_of(tokens@) =~= Seq::empty());
    }
    while i < chars.len()
        invariant
            i <= chars.len(),
            texts_of(tokens@) == scanned(chars@.take(i as int)).tokens,
            line@ == scanned(chars@.take(i as int)).line,
        decreases chars.len() - i,
    {
        proof {
            assert(chars@.take(i + 1).drop_last() =~= chars@.take(i as int));
            assert(chars@.take(i + 1).last() == chars@[i as int]);
        }
        if chars[i] == '\n' {
            push_line(&mut tokens, &line);
            line = Vec::new();
        } else {
            line.push(chars[i]);
        }
        i = i + 1;
    }
    proof {
        assert(chars@.take(i as int) =~= chars@);
    }
    push_line(&mut tokens, &line);
    tokens
}

#[verifier::external_type_specification]
#[verifier::external_body]
pub struct ExFnvHasher(fnv::FnvHasher);

#[verifier::external_type_specification]
#[verifier::external_body]
#[verifier::reject_recursive_types(H)]
pub struct ExBuildHasherDefault<H>(std::hash::BuildHasherDefault<H>);

/// Calls `HashMap::insert` on a map that hashes with `fnv::FnvHasher`. That
/// hasher is a pure function of the bytes written to it, so the map holds
/// afterwards what it held before and `token` under `id`.
#[verifier::external_body]
fn index_insert(index: &mut FnvHashMap<i32, BannedToken>, id: i32, token: BannedToken)
    ensures
        final(index)@ == old(index)@.insert(id, token),
{
    index.insert(id, token);
}

/// Calls `HashMap::contains_key` on a map that hashes with
/// `fnv::FnvHasher`: whether the map holds an entry under `id`.
#[verifier::external_body]
fn index_contains(index: &FnvHashMap<i32, BannedToken>, id: i32) -> (found: bool)
    ensures
        found == index@.contains_key(id),
{
    index.contains_key(&id)
}

/// What a filter holds: the banned tokens of its context, and the texts
/// banned in every context.
pub struct BannedDictionaryView {
    pub banned: Seq<BannedTokenView>,
    pub generic: Seq<Seq<char>>,
}

impl BannedDictionaryView {
    /// Whether a banned text of the context or of the engine is a part of
    /// `text`.
    pub open spec fn bans_text(self, text: Seq<char>) -> bool {
        ||| exists|i: int| 0 <= i < self.banned.len()
            && contains(text, (#[trigger] self.banned[i]).text)
        ||| exists|g: int| 0 <= g < self.generic.len() && contains(text, #[trigger] self.generic[g])
    }

    /// Whether one of `texts` is banned.
    pub open spec fn bans_any_text(self, texts: Seq<Seq<char>>) -> bool {
        exists|j: int| 0 <= j < texts.len() && self.bans_text(#[trigger] texts[j])
    }

    /// Whether a banned text of the context is the text of the token `id`.
    pub open spec fn bans_id(self, id: i32) -> bool {
        exists|i: int|
            0 <= i < self.banned.len() && (#[trigger] self.banned[i]).dictionary_id == Some(id)
    }

    /// Whether one of `ids` is banned.
    pub open spec fn bans_any_id(self, ids: Seq<i32>) -> bool {
        exists|k: int| 0 <= k < ids.len() && self.bans_id(#[trigger] ids[k])
    }

    /// Whether a banned text of the context is exactly `text`.
    pub open spec fn has_text(self, text: Seq<char>) -> bool {
        exists|i: int| 0 <= i < self.banned.len() && (#[trigger] self.banned[i]).text == text
    }
}

/// One text alone is banned exactly when a banned text of the context or
/// of the engine is a part of it.
pub proof fn lemma_single_text_banned(filter: BannedDictionaryView, text: Seq<char>)
    ensures
        filter.bans_any_text(seq![text]) <==> (exists|i: int|
            0 <= i < filter.banned.len() && contains(text, (#[trigger] filter.banned[i]).text))
            || (exists|g: int|
            0 <= g < filter.generic.len() && contains(text, #[trigger] filter.generic[g])),
{
    let texts = seq![text];
    if filter.bans_text(text) {
        assert(filter.bans_text(texts[0]));
    }
}

/// The banned-token filter of one context.
pub struct BannedDictionary<'bd> {
    banned_tokens: Vec<BannedToken>,
    banned_tokens_by_id: FnvHashMap<i32, BannedToken>,
    banned_tokens_generic: &'bd Vec<String>,
}

impl<'bd> View for BannedDictionary<'bd> {
    type V = BannedDictionaryView;

    closed spec fn view(&self) -> BannedDictionaryView {
        BannedDictionaryView {
            banned: banned_views(self.banned_tokens@),
            generic: texts_of(self.banned_tokens_generic@),
        }
    }
}

impl<'bd> BannedDictionary<'bd> {
    /// Whether the index by id holds exactly the ids of the banned tokens.
    pub closed spec fn wf(&self) -> bool {
        forall|id: i32| #[trigger] self.banned_tokens_by_id@.contains_key(id) <==> self@.bans_id(id)
    }

    /// Adds `fresh` to the banned tokens and to the index by id.
    fn remember(&mut self, fresh: &Vec<BannedToken>)
        requires
            old(self).wf(),
        ensures
            final(self).wf(),
            final(self)@.banned == old(self)@.banned + banned_views(fresh@),
            final(self)@.generic == old(self)@.generic,
    {
        let mut i: usize = 0;
        proof {
            assert(banned_views(fresh@).take(0) =~= Seq::empty());
            assert(self@.banned + Seq::<BannedTokenView>::empty() =~= self@.banned);
        }
        while i < fresh.len()
            invariant
                i <= fresh.len(),
                self.wf(),
                self@.banned == old(self)@.banned + banned_views(fresh@).take(i as int),
                self@.generic == old(self)@.generic,
            decreases fresh.len() - i,
        {
            let token = fresh[i].clone();
            let ghost before = self@;
            let ghost index = self.banned_tokens_by_id@;
            match token.get_dictionary_id() {
                Some(id) => {
                    index_insert(&mut self.banned_tokens_by_id, id, token.clone());
                },
                None => {},
            }
            self.banned_tokens.push(token);
            proof {
                let added = banned_views(fresh@);
                assert(self@.banned =~= before.banned.push(added[i as int]));
                assert(added.take(i + 1) =~= added.take(i as int).push(added[i as int]));
                assert(self@.banned =~= old(self)@.banned + added.take(i + 1));
                assert forall|id: i32| #[trigger]
                    self.banned_tokens_by_id@.contains_key(id) <==> self@.bans_id(id) by {
                    if self@.bans_id(id) {
                        let k = choose|k: int|
                            0 <= k < self@.banned.len()
                                && (#[trigger] self@.banned[k]).dictionary_id
                                == Some(id);
                        if k < before.banned.len() {
                            assert(before.banned[k].dictionary_id == Some(id));
                            assert(before.bans_id(id));
                            assert(index.contains_key(id));
                        }
                    }
                    if self.banned_tokens_by_id@.contains_key(id) {
                        if index.contains_key(id) {
                            assert(before.bans_id(id));
                            let k = choose|k: int|
                                0 <= k < before.banned.len() && (
                                #[trigger] before.banned[k]).dictionary_id == Some(id);
                            assert(self@.banned[k].dictionary_id == Some(id));
                        } else {
                            assert(self@.banned[before.banned.len() as int].dictionary_id == Some(
                                id,
                            ));
                        }
                    }
                }
            }
            i = i + 1;
        }
        proof {
            assert(banned_views(fresh@).take(i as int) =~= banned_views(fresh@));
        }
    }

    /// The filter of the context stored in `database`, with the texts that
    /// are banned in every context.
    pub fn new(database: &Database, banned_tokens_generic: &'bd Vec<String>) -> (r: Result<
        BannedDictionary<'bd>,
        EngineError,
    >)
        requires
            database.wf(),
        ensures
            r is Ok,
            r->Ok_0.wf(),
            r->Ok_0@.banned == database@.banned_entries(None),
            r->Ok_0@.generic == texts_of(banned_tokens_generic@),
    {
        let mut filter = BannedDictionary {
            banned_tokens: Vec::new(),
            banned_tokens_by_id: FnvHashMap::default(),
            banned_tokens_generic,
        };
        proof {
            assert(filter@.banned =~= Seq::empty());
        }
        match database.banned_load_banned_tokens(None) {
            Ok(loaded) => {
                filter.remember(&loaded);
                proof {
                    assert(Seq::<BannedTokenView>::empty() + banned_views(loaded@) =~= banned_views(
                        loaded@,
                    ));
                }
                Ok(filter)
            },
            Err(e) => Err(e),
        }
    }

    /// Whether a banned text of the context is exactly `text`.
    fn has_token(&self, text: &String) -> (found: bool)
        ensures
            found == self@.has_text(text@),
    {
        let mut i: usize = 0;
        while i < self.banned_tokens.len()
            invariant
                i <= self.banned_tokens.len(),
                forall|k: int| 0 <= k < i ==> (#[trigger] self@.banned[k]).text != text@,
            decreases self.banned_tokens.len() - i,
        {
            if self.banned_tokens[i].token_equal(text.as_str()) {
                assert(self@.banned[i as int].text == text@);
                return true;
            }
            i = i + 1;
        }
        false
    }

    /// Whether a banned text of the context or of the engine is a part of
    /// `text`.
    pub fn is_text_banned(&self, text: &str) -> (banned: bool)
        ensures
            banned == self@.bans_text(text@),
    {
        let mut i: usize = 0;
        while i < self.banned_tokens.len()
            invariant
                i <= self.banned_tokens.len(),
                forall|k: int| 0 <= k < i ==> !contains(text@, (#[trigger] self@.banned[k]).text),
            decreases self.banned_tokens.len() - i,
        {
            if self.banned_tokens[i].token_contains(text) {
                assert(contains(text@, self@.banned[i as int].text));
                return true;
            }
            i = i + 1;
        }
        let mut g: usize = 0;
        while g < self.banned_tokens_generic.len()
            invariant
                g <= self.banned_tokens_generic.len(),
                forall|k: int|
                    0 <= k < self@.banned.len() ==> !contains(
                        text@,
                        (#[trigger] self@.banned[k]).text,
                    ),
                forall|k: int| 0 <= k < g ==> !contains(text@, #[trigger] self@.generic[k]),
            decreases self.banned_tokens_generic.len() - g,
        {
            if str_contains(text, self.banned_tokens_generic[g].as_str()) {
                assert(contains(text@, self@.generic[g as int]));
                return true;
            }
            g = g + 1;
        }
        false
    }

    /// Whether one of `tokens` has a banned text of the context or of the
    /// engine as a part.
    pub fn is_banned_by_token(&self, tokens: &Vec<String>) -> (banned: bool)
        ensures
            banned == self@.bans_any_text(texts_of(tokens@)),
    {
        let mut j: usize = 0;
        while j < tokens.len()
            invariant
                j <= tokens.len(),
                forall|k: int| 0 <= k < j ==> !self@.bans_text(#[trigger] texts_of(tokens@)[k]),
            decreases tokens.len() - j,
        {
            if self.is_text_banned(tokens[j].as_str()) {
                assert(self@.bans_text(texts_of(tokens@)[j as int]));
                return true;
            }
            j = j + 1;
        }
        false
    }

    /// Whether one of `ids` is the id of a banned token of the context.
    pub fn is_banned_by_id(&self, ids: &Vec<i32>) -> (banned: bool)
        requires
            self.wf(),
        ensures
            banned == self@.bans_any_id(ids@),
    {
        let mut k: usize = 0;
        while k < ids.len()
            invariant
                self.wf(),
                k <= ids.len(),
                forall|j: int| 0 <= j < k ==> !self@.bans_id(#[trigger] ids@[j]),
            decreases ids.len() - k,
        {
            if index_contains(&self.banned_tokens_by_id, ids[k]) {
                assert(self@.bans_id(ids@[k as int]));
                return true;
            }
            k = k + 1;
        }
        false
    }

    /// Whether `id` is the id of a banned token of the context.
    pub fn is_id_banned(&self, id: i32) -> (banned: bool)
        requires
            self.wf(),
        ensures
            banned == self@.bans_id(id),
    {
        index_contains(&self.banned_tokens_by_id, id)
    }

    /// Bans `tokens`: each is lower-cased; those that the filter does not
    /// hold yet are stored in the banned table of `database`, and what the
    /// table then holds for them, each with the id of the token of that
    /// text, is added to the filter and returned.
    pub fn ban(&mut self, database: &mut Database, tokens: &Vec<String>) -> (r: Result<
        Vec<BannedToken>,
        EngineError,
    >)
        requires
            old(self).wf(),
            old(database).wf(),
        ensures
            final(self).wf(),
            final(database).wf(),
            r is Ok,
            ({
                let fresh = lowered(texts_of(tokens@)).filter(
                    |text: Seq<char>| !old(self)@.has_text(text),
                );
                &&& final(database)@ == (DatabaseView {
                    banned: with_banned(old(database)@.banned, fresh),
                    ..old(database)@
                })
                &&& banned_views(r->Ok_0@) == final(database)@.banned_entries(Some(fresh))
            }),
            final(self)@.banned == old(self)@.banned + banned_views(r->Ok_0@),
            final(self)@.generic == old(self)@.generic,
    {
        let ghost wanted = lowered(texts_of(tokens@));
        let ghost keep = |text: Seq<char>| !old(self)@.has_text(text);
        let mut fresh: Vec<String> = Vec::new();
        let mut i: usize = 0;
        proof {
            assert(texts_of(fresh@) =~= Seq::empty());
            assert(wanted.take(0) =~= Seq::empty());
        }
        while i < tokens.len()
            invariant
                i <= tokens.len(),
                *self == *old(self),
                wanted == lowered(texts_of(tokens@)),
                keep == |text: Seq<char>| !old(self)@.has_text(text),
                texts_of(fresh@) == wanted.take(i as int).filter(keep),
            decreases tokens.len() - i,
        {
            let text = to_lowercase(tokens[i].as_str());
            proof {
                lemma_filter_step(wanted, keep, i as int);
                assert(wanted[i as int] == text@);
            }
            if !self.has_token(&text) {
                let ghost before = texts_of(fresh@);
                fresh.push(text);
                assert(texts_of(fresh@) =~= before.push(wanted[i as int]));
            }
            i = i + 1;
        }
        proof {
            assert(wanted.take(i as int) =~= wanted);
        }
        match database.banned_ban_tokens(&fresh) {
            Ok(added) => {
                self.remember(&added);
                Ok(added)
            },
            Err(e) => Err(e),
        }
    }

    /// Lifts the ban of `tokens`: those that the filter holds, by their
    /// exact text, leave the banned table of `database` and the filter.
    pub fn unban(&mut self, database: &mut Database, tokens: &Vec<String>) -> (r: Result<
        (),
        EngineError,
    >)
        requires
            old(self).wf(),
            old(database).wf(),
        ensures
            final(self).wf(),
            final(database).wf(),
            r is Ok,
            final(database)@ == (DatabaseView {
                banned: without_banned(
                    old(database)@.banned,
                    texts_of(tokens@).filter(|text: Seq<char>| old(self)@.has_text(text)),
                ),
                ..old(database)@
            }),
            final(self)@.banned == old(self)@.banned.filter(
                |token: BannedTokenView| !texts_of(tokens@).contains(token.text),
            ),
            final(self)@.generic == old(self)@.generic,
    {
        let ghost held = |text: Seq<char>| old(self)@.has_text(text);
        let ghost wanted = texts_of(tokens@);
        let mut present: Vec<String> = Vec::new();
        let mut i: usize = 0;
        proof {
            assert(texts_of(present@) =~= Seq::empty());
            assert(wanted.take(0) =~= Seq::empty());
        }
        while i < tokens.len()
            invariant
                i <= tokens.len(),
                *self == *old(self),
                wanted == texts_of(tokens@),
                held == |text: Seq<char>| old(self)@.has_text(text),
                texts_of(present@) == wanted.take(i as int).filter(held),
            decreases tokens.len() - i,
        {
            proof {
                lemma_filter_step(wanted, held, i as int);
            }
            if self.has_token(&tokens[i]) {
                let ghost before = texts_of(present@);
                present.push(tokens[i].clone());
                assert(texts_of(present@) =~= before.push(wanted[i as int]));
            }
            i = i + 1;
        }
        proof {
            assert(wanted.take(i as int) =~= wanted);
        }
        match database.banned_unban_tokens(&present) {
            Ok(_) => {},
            Err(e) => {
                return Err(e);
            },
        }
        let ghost stays = |token: BannedTokenView| !texts_of(tokens@).contains(token.text);
        let ghost all = self@.banned;
        let mut kept: Vec<BannedToken> = Vec::new();
        let mut k: usize = 0;
        proof {
            assert(banned_views(kept@) =~= Seq::empty());
            assert(all.take(0) =~= Seq::empty());
        }
        while k < self.banned_tokens.len()
            invariant
                k <= self.banned_tokens.len(),
                *self == *old(self),
                all == self@.banned,
                stays == |token: BannedTokenView| !texts_of(tokens@).contains(token.text),
                banned_views(kept@) == all.take(k as int).filter(stays),
            decreases self.banned_tokens.len() - k,
        {
            proof {
                lemma_filter_step(all, stays, k as int);
            }
            let token = &self.banned_tokens[k];
            if !text_in(tokens, token.get_case_insensitive_representation()) {
                let ghost before = banned_views(kept@);
                kept.push(token.clone());
                assert(banned_views(kept@) =~= before.push(all[k as int]));
            }
            k = k + 1;
        }
        proof {
            assert(all.take(k as int) =~= all);
        }
        self.banned_tokens = Vec::new();
        self.banned_tokens_by_id = FnvHashMap::default();
        proof {
            assert(self@.banned =~= Seq::empty());
        }
        self.remember(&kept);
        proof {
            assert(Seq::<BannedTokenView>::empty() + banned_views(kept@) =~= banned_views(kept@));
        }
        Ok(())
    }
}

} // verus!
