//! The parts of one context, and the model that holds all contexts: their
//! stores and what is the same in each of them.

pub mod banned_dictionary;
pub mod codec;
pub mod database;
pub mod dictionary;
pub mod error;
pub mod generation;
pub mod model;
pub mod orchestration;
pub mod sequences;
pub mod text;

use crate::engine::model::banned_dictionary::banned_tokens_listed;
use crate::engine::model::banned_dictionary::process_banned_tokens_list;
use crate::engine::model::banned_dictionary::BannedToken;
use crate::engine::model::banned_dictionary::BannedTokenView;
use crate::engine::model::database::banned_views;
use crate::engine::model::database::lemma_store_replaced;
use crate::engine::model::database::without_banned;
use crate::engine::model::database::Database;
use crate::engine::model::database::DatabaseManager;
use crate::engine::model::database::DatabaseManagerView;
use crate::engine::model::database::DatabaseView;
use crate::engine::model::dictionary::Dictionary;
use crate::engine::model::error::EngineError;
use crate::engine::model::generation::generates;
use crate::engine::model::orchestration::cascade_refused;
use crate::engine::model::orchestration::cascades;
use crate::engine::model::orchestration::dictionary_learns;
use crate::engine::model::orchestration::learning_refused;
use crate::engine::model::orchestration::learns;
use crate::engine::model::text::texts_of;
use crate::engine::Context;
use crate::engine::ContextView;
use vstd::prelude::*;

verus! {

/// What a model holds: the registry of stores, the texts that are banned in
/// every context, and the tokens that are never keywords.
pub struct ModelView {
    pub manager: DatabaseManagerView,
    pub generic: Seq<Seq<char>>,
    pub non_keywords: Seq<Seq<char>>,
}

impl ModelView {
    /// The model without contexts that is made from two lists.
    pub open spec fn prepared(
        db_dir: Seq<char>,
        non_keyword_tokens_list: Seq<char>,
        banned_tokens_list: Seq<char>,
    ) -> ModelView {
        ModelView {
            manager: DatabaseManagerView { db_dir, stores: Seq::empty(), next_serial: 0 },
            generic: banned_tokens_listed(banned_tokens_list),
            non_keywords: banned_tokens_listed(non_keyword_tokens_list),
        }
    }

    /// The model with `database` in the place of the store at `position`.
    pub open spec fn with_database(self, position: int, database: DatabaseView) -> ModelView {
        ModelView { manager: self.manager.with_database(position, database), ..self }
    }

    /// Whether `after` and `r` are what asking this model for the context
    /// `id` gives: the handle on its store, which is created empty where
    /// there is none; `StoreUnavailable` where none can be created.
    pub open spec fn get_outcome(
        self,
        after: ModelView,
        id: Seq<char>,
        r: Result<ContextView, EngineError>,
    ) -> bool {
        if self.manager.has(id) {
            &&& after == self
            &&& r == Ok::<ContextView, EngineError>(
                ContextView { id, serial: self.manager.stores[self.manager.index_of(id)].serial },
            )
        } else {
            self.restore_outcome(after, id, DatabaseView::empty(), r)
        }
    }

    /// Whether `after` and `r` are what registering `database` as the
    /// store of a new context `id` gives: the handle on it;
    /// `StoreUnavailable` where there is such a context already or none can
    /// be created.
    pub open spec fn restore_outcome(
        self,
        after: ModelView,
        id: Seq<char>,
        database: DatabaseView,
        r: Result<ContextView, EngineError>,
    ) -> bool {
        if !self.manager.has(id) && self.manager.next_serial < u64::MAX {
            &&& r == Ok::<ContextView, EngineError>(
                ContextView { id, serial: self.manager.next_serial },
            )
            &&& after == (ModelView {
                manager: DatabaseManagerView {
                    stores: self.manager.stores.push(
                        crate::engine::model::database::StoreView {
                            id,
                            serial: self.manager.next_serial,
                            database,
                        },
                    ),
                    next_serial: (self.manager.next_serial + 1) as u64,
                    ..self.manager
                },
                ..self
            })
        } else {
            r == Err::<ContextView, EngineError>(EngineError::StoreUnavailable) && after == self
        }
    }

    /// Whether `after` and `r` are what dropping the context `id` gives:
    /// its store is gone; `StoreUnavailable` where there is none.
    pub open spec fn drop_outcome(
        self,
        after: ModelView,
        id: Seq<char>,
        r: Result<(), EngineError>,
    ) -> bool {
        &&& !after.manager.has(id)
        &&& if self.manager.has(id) {
            &&& r is Ok
            &&& after == (ModelView {
                manager: DatabaseManagerView {
                    stores: self.manager.stores.remove(self.manager.index_of(id)),
                    ..self.manager
                },
                ..self
            })
        } else {
            r == Err::<(), EngineError>(EngineError::StoreUnavailable) && after == self
        }
    }

    /// Whether `after` and `r` are what learning `texts` in `context` at
    /// time `now` gives. A handle on a dropped context gives
    /// `ContextDropped`; else only the store of the context changes, and
    /// not even that where the texts are not learnable or a step is
    /// refused.
    pub open spec fn learn_outcome(
        self,
        after: ModelView,
        context: ContextView,
        texts: Seq<Seq<char>>,
        learnable: bool,
        now: i64,
        r: Result<(), EngineError>,
    ) -> bool {
        match self.manager.position(context.id, context.serial) {
            None => r == Err::<(), EngineError>(EngineError::ContextDropped) && after == self,
            Some(i) => {
                let before = self.manager.stores[i].database;
                let store = after.manager.stores[i].database;
                &&& after == self.with_database(i, store)
                &&& !learnable ==> r is Ok && store == before
                &&& learnable && !dictionary_learns(before, self.generic, texts) ==> r is Err
                &&& r is Err ==> store == before && learning_refused(
                    before,
                    self.generic,
                    texts,
                    now,
                )
                &&& learnable && r is Ok ==> learns(before, store, self.generic, texts, now)
            },
        }
    }

    /// Whether `r` is what generating from `seed` in `context` at time
    /// `now` gives. A handle on a dropped context gives `ContextDropped`.
    pub open spec fn generate_outcome(
        self,
        context: ContextView,
        seed: Seq<Seq<char>>,
        now: i64,
        draw: u64,
        forward_rolls: Seq<u64>,
        reverse_rolls: Seq<u64>,
        r: Result<Option<Seq<char>>, EngineError>,
    ) -> bool {
        match self.manager.position(context.id, context.serial) {
            None => r == Err::<Option<Seq<char>>, EngineError>(EngineError::ContextDropped),
            Some(i) => generates(
                self.manager.stores[i].database,
                self.generic,
                self.non_keywords,
                seed,
                now,
                draw,
                forward_rolls,
                reverse_rolls,
                r,
            ),
        }
    }

    /// Whether `after` and `r` are what banning `texts` in `context`
    /// gives. A handle on a dropped context gives `ContextDropped`; else
    /// only the store of the context changes, and not even that where a
    /// step is refused.
    pub open spec fn ban_outcome(
        self,
        after: ModelView,
        context: ContextView,
        texts: Seq<Seq<char>>,
        r: Result<Seq<BannedTokenView>, EngineError>,
    ) -> bool {
        match self.manager.position(context.id, context.serial) {
            None => r == Err::<Seq<BannedTokenView>, EngineError>(EngineError::ContextDropped)
                && after == self,
            Some(i) => {
                let before = self.manager.stores[i].database;
                let store = after.manager.stores[i].database;
                &&& after == self.with_database(i, store)
                &&& r is Err ==> store == before && cascade_refused(before, self.generic, texts)
                &&& r is Ok ==> cascades(before, store, self.generic, texts, r->Ok_0)
            },
        }
    }

    /// Whether `after` and `r` are what lifting the ban of `texts` in
    /// `context` gives. A handle on a dropped context gives
    /// `ContextDropped`; else the texts leave the banned table of the
    /// context.
    pub open spec fn unban_outcome(
        self,
        after: ModelView,
        context: ContextView,
        texts: Seq<Seq<char>>,
        r: Result<(), EngineError>,
    ) -> bool {
        match self.manager.position(context.id, context.serial) {
            None => r == Err::<(), EngineError>(EngineError::ContextDropped) && after == self,
            Some(i) => {
                let before = self.manager.stores[i].database;
                &&& r is Ok
                &&& after == self.with_database(
                    i,
                    DatabaseView { banned: without_banned(before.banned, texts), ..before },
                )
            },
        }
    }
}

/// All contexts: their stores and what is the same in each of them.
pub struct Model {
    database_manager: DatabaseManager,
    banned_tokens_generic: Vec<String>,
    non_keyword_tokens: Vec<String>,
}

impl View for Model {
    type V = ModelView;

    closed spec fn view(&self) -> ModelView {
        ModelView {
            manager: self.database_manager@,
            generic: texts_of(self.banned_tokens_generic@),
            non_keywords: texts_of(self.non_keyword_tokens@),
        }
    }
}

impl Model {
    /// Whether the model meets its constraints.
    pub closed spec fn wf(&self) -> bool {
        self.database_manager.wf()
    }

    /// A model without contexts, for stores below `db_dir`, with the tokens
    /// that are never keywords and the texts that are banned in every
    /// context.
    pub fn new(
        db_dir: &str,
        non_keyword_tokens: Vec<String>,
        banned_tokens_generic: Vec<String>,
    ) -> (model: Model)
        ensures
            model.wf(),
            model@ == (ModelView {
                manager: DatabaseManagerView {
                    db_dir: db_dir@,
                    stores: Seq::empty(),
                    next_serial: 0,
                },
                generic: texts_of(banned_tokens_generic@),
                non_keywords: texts_of(non_keyword_tokens@),
            }),
    {
        Model {
            database_manager: DatabaseManager::new(db_dir),
            banned_tokens_generic,
            non_keyword_tokens,
        }
    }

    /// A model without contexts, for stores below `db_dir`, from the list
    /// of the tokens that are never keywords and the list of the texts that
    /// are banned in every context, each with one entry to a line.
    pub fn prepare(db_dir: &str, non_keyword_tokens_list: &str, banned_tokens_list: &str) -> (model:
        Model)
        ensures
            model.wf(),
            model@ == ModelView::prepared(db_dir@, non_keyword_tokens_list@, banned_tokens_list@),
    {
        Self::new(
            db_dir,
            process_banned_tokens_list(non_keyword_tokens_list),
            process_banned_tokens_list(banned_tokens_list),
        )
    }

    /// Whether there is a context `id`.
    pub fn context_exists(&self, id: &str) -> (found: bool)
        ensures
            found == self@.manager.has(id@),
    {
        self.database_manager.store_exists(id)
    }

    /// A handle on the context `id`, which is created empty where there is
    /// none.
    pub fn get_context(&mut self, id: &str) -> (r: Result<Context, EngineError>)
        requires
            old(self).wf(),
        ensures
            final(self).wf(),
            old(self)@.get_outcome(
                final(self)@,
                id@,
                match r {
                    Ok(context) => Ok(context@),
                    Err(e) => Err(e),
                },
            ),
    {
        match self.database_manager.load(id) {
            Ok(serial) => Ok(Context::new(id.to_owned(), serial)),
            Err(e) => Err(e),
        }
    }

    /// A handle on the new, empty context `id`. Where there is such a
    /// context already: `StoreUnavailable`.
    pub fn create_context(&mut self, id: &str) -> (r: Result<Context, EngineError>)
        requires
            old(self).wf(),
        ensures
            final(self).wf(),
            old(self)@.restore_outcome(
                final(self)@,
                id@,
                DatabaseView::empty(),
                match r {
                    Ok(context) => Ok(context@),
                    Err(e) => Err(e),
                },
            ),
    {
        self.restore_context(id, Database::new())
    }

    /// A handle on the new context `id` with `database` as its store. Where
    /// there is such a context already: `StoreUnavailable`.
    pub fn restore_context(&mut self, id: &str, database: Database) -> (r: Result<
        Context,
        EngineError,
    >)
        requires
            old(self).wf(),
            database.wf(),
        ensures
            final(self).wf(),
            old(self)@.restore_outcome(
                final(self)@,
                id@,
                database@,
                match r {
                    Ok(context) => Ok(context@),
                    Err(e) => Err(e),
                },
            ),
    {
        match self.database_manager.install(id, database) {
            Ok(serial) => Ok(Context::new(id.to_owned(), serial)),
            Err(e) => Err(e),
        }
    }

    /// Drops the context `id`: its store is gone, and the handles on it are
    /// of no use any more.
    pub fn drop_context(&mut self, id: &str) -> (r: Result<(), EngineError>)
        requires
            old(self).wf(),
        ensures
            final(self).wf(),
            old(self)@.drop_outcome(final(self)@, id@, r),
    {
        self.database_manager.drop(id)
    }

    /// The store of `context`.
    pub fn database(&self, context: &Context) -> (r: Result<&Database, EngineError>)
        requires
            self.wf(),
        ensures
            match self@.manager.position(context@.id, context@.serial) {
                Some(i) => r is Ok && r->Ok_0@ == self@.manager.stores[i].database,
                None => r == Err::<&Database, EngineError>(EngineError::ContextDropped),
            },
    {
        match self.database_manager.locate(context.get_id().as_str(), context.get_serial()) {
            Some(i) => Ok(self.database_manager.database(i)),
            None => Err(EngineError::ContextDropped),
        }
    }

    /// Learns `texts` in `context` at time `now`.
    pub fn learn(
        &mut self,
        context: &Context,
        texts: &Vec<String>,
        learnable: bool,
        now: i64,
    ) -> (r: Result<(), EngineError>)
        requires
            old(self).wf(),
        ensures
            final(self).wf(),
            old(self)@.learn_outcome(final(self)@, context@, texts_of(texts@), learnable, now, r),
    {
        let position = match self.database_manager.locate(
            context.get_id().as_str(),
            context.get_serial(),
        ) {
            Some(position) => position,
            None => {
                return Err(EngineError::ContextDropped);
            },
        };
        let ghost before = self@;
        let dictionary = Dictionary::new(&self.non_keyword_tokens);
        let database = self.database_manager.database_mut(position);
        let r = crate::engine::model::orchestration::learn(
            database,
            &dictionary,
            &self.banned_tokens_generic,
            texts,
            learnable,
            now,
        );
        proof {
            let store = self@.manager.stores[position as int].database;
            lemma_store_replaced(before.manager, position as int, store);
            assert(self@.manager == before.manager.with_database(position as int, store));
        }
        r
    }

    /// Bans `texts` in `context`, with all that follows from it.
    pub fn ban(&mut self, context: &Context, texts: &Vec<String>) -> (r: Result<
        Vec<BannedToken>,
        EngineError,
    >)
        requires
            old(self).wf(),
        ensures
            final(self).wf(),
            old(self)@.ban_outcome(
                final(self)@,
                context@,
                texts_of(texts@),
                match r {
                    Ok(added) => Ok(banned_views(added@)),
                    Err(e) => Err(e),
                },
            ),
    {
        let position = match self.database_manager.locate(
            context.get_id().as_str(),
            context.get_serial(),
        ) {
            Some(position) => position,
            None => {
                return Err(EngineError::ContextDropped);
            },
        };
        let ghost before = self@;
        let database = self.database_manager.database_mut(position);
        let r = crate::engine::model::orchestration::ban_cascade(
            database,
            &self.banned_tokens_generic,
            texts,
        );
        proof {
            let store = self@.manager.stores[position as int].database;
            lemma_store_replaced(before.manager, position as int, store);
            assert(self@.manager == before.manager.with_database(position as int, store));
        }
        r
    }

    /// Lifts the ban of `texts` in `context`.
    pub fn unban(&mut self, context: &Context, texts: &Vec<String>) -> (r: Result<(), EngineError>)
        requires
            old(self).wf(),
        ensures
            final(self).wf(),
            old(self)@.unban_outcome(final(self)@, context@, texts_of(texts@), r),
    {
        let position = match self.database_manager.locate(
            context.get_id().as_str(),
            context.get_serial(),
        ) {
            Some(position) => position,
            None => {
                return Err(EngineError::ContextDropped);
            },
        };
        let ghost before = self@;
        let database = self.database_manager.database_mut(position);
        let r = crate::engine::model::orchestration::unban(database, texts);
        proof {
            let store = self@.manager.stores[position as int].database;
            lemma_store_replaced(before.manager, position as int, store);
            assert(self@.manager == before.manager.with_database(position as int, store));
        }
        r
    }

    /// Generates a text from `seed` in `context` at time `now`: keywords
    /// are made up from tokens drawn by `draw`, and the walks step by the
    /// rolls.
    pub fn generate(
        &self,
        context: &Context,
        seed: &Vec<String>,
        now: i64,
        draw: u64,
        forward_rolls: &Vec<u64>,
        reverse_rolls: &Vec<u64>,
    ) -> (r: Result<Option<String>, EngineError>)
        requires
            self.wf(),
        ensures
            self@.generate_outcome(
                context@,
                texts_of(seed@),
                now,
                draw,
                forward_rolls@,
                reverse_rolls@,
                crate::engine::model::generation::said(r),
            ),
    {
        let position = match self.database_manager.locate(
            context.get_id().as_str(),
            context.get_serial(),
        ) {
            Some(position) => position,
            None => {
                return Err(EngineError::ContextDropped);
            },
        };
        let dictionary = Dictionary::new(&self.non_keyword_tokens);
        crate::engine::model::generation::generate(
            self.database_manager.database(position),
            &dictionary,
            &self.banned_tokens_generic,
            seed,
            now,
            draw,
            forward_rolls,
            reverse_rolls,
        )
    }
}

} // verus!
