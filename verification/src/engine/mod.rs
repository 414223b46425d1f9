//! The engine and the contexts it hands out.

pub mod model;

use crate::engine::model::banned_dictionary::BannedToken;
use crate::engine::model::database::banned_views;
use crate::engine::model::database::Database;
use crate::engine::model::error::EngineError;
use crate::engine::model::model::get_current_time;
use crate::engine::model::text::texts_of;
use crate::engine::model::Model;
use crate::engine::model::ModelView;
use vstd::prelude::*;

verus! {

/// A handle on one context of an engine: the id of the context and the
/// serial number under which its store was created. It stays behind when
/// the context is dropped, and is of no use from then on.
#[derive(Debug)]
pub struct Context {
    id: String,
    serial: u64,
}

/// What a handle holds.
pub struct ContextView {
    pub id: Seq<char>,
    pub serial: u64,
}

impl View for Context {
    type V = ContextView;

    closed spec fn view(&self) -> ContextView {
        ContextView { id: self.id@, serial: self.serial }
    }
}

impl Clone for Context {
    fn clone(&self) -> (copy: Context)
        ensures
            copy@ == self@,
    {
        Context { id: self.id.clone(), serial: self.serial }
    }
}

impl Context {
    /// A handle on the context `id` whose store was created under the
    /// serial number `serial`.
    pub(crate) fn new(id: String, serial: u64) -> (context: Context)
        ensures
            context@ == (ContextView { id: id@, serial }),
    {
        Context { id, serial }
    }

    /// The id of the context.
    pub fn get_id(&self) -> (id: &String)
        ensures
            id@ == self@.id,
    {
        &self.id
    }

    /// The serial number under which the store of the context was created.
    pub fn get_serial(&self) -> (serial: u64)
        ensures
            serial == self@.serial,
    {
        self.serial
    }

    /// Learns `tokens` in this context at the time the system clock shows.
    pub fn learn(&self, engine: &mut Engine, tokens: &Vec<String>, learnable: bool) -> (r: Result<
        (),
        EngineError,
    >)
        requires
            old(engine).wf(),
        ensures
            final(engine).wf(),
            exists|now: i64|
                old(engine)@.learn_outcome(
                    final(engine)@,
                    self@,
                    texts_of(tokens@),
                    learnable,
                    now,
                    r,
                ),
    {
        let now = get_current_time();
        engine.learn(self, tokens, learnable, now)
    }

    /// Learns `tokens` in this context at time `now`.
    pub fn learn_at(
        &self,
        engine: &mut Engine,
        tokens: &Vec<String>,
        learnable: bool,
        now: i64,
    ) -> (r: Result<(), EngineError>)
        requires
            old(engine).wf(),
        ensures
            final(engine).wf(),
            old(engine)@.learn_outcome(
                final(engine)@,
                self@,
                texts_of(tokens@),
                learnable,
                now,
                r,
            ),
    {
        engine.learn(self, tokens, learnable, now)
    }

    /// Generates a text from `seed_tokens` in this context at the time the
    /// system clock shows: keywords are made up from tokens drawn by
    /// `draw`, and the walks step by the rolls.
    pub fn generate(
        &self,
        engine: &Engine,
        seed_tokens: &Vec<String>,
        draw: u64,
        forward_rolls: &Vec<u64>,
        reverse_rolls: &Vec<u64>,
    ) -> (r: Result<Option<String>, EngineError>)
        requires
            engine.wf(),
        ensures
            exists|now: i64| #[trigger]
                engine@.generate_outcome(
                    self@,
                    texts_of(seed_tokens@),
                    now,
                    draw,
                    forward_rolls@,
                    reverse_rolls@,
                    crate::engine::model::generation::said(r),
                ),
    {
        let now = get_current_time();
        engine.generate(self, seed_tokens, now, draw, forward_rolls, reverse_rolls)
    }

    /// Generates a text from `seed_tokens` in this context at time `now`.
    pub fn generate_at(
        &self,
        engine: &Engine,
        seed_tokens: &Vec<String>,
        now: i64,
        draw: u64,
        forward_rolls: &Vec<u64>,
        reverse_rolls: &Vec<u64>,
    ) -> (r: Result<Option<String>, EngineError>)
        requires
            engine.wf(),
        ensures
            engine@.generate_outcome(
                self@,
                texts_of(seed_tokens@),
                now,
                draw,
                forward_rolls@,
                reverse_rolls@,
                crate::engine::model::generation::said(r),
            ),
    {
        engine.generate(self, seed_tokens, now, draw, forward_rolls, reverse_rolls)
    }

    /// Bans `texts` in this context, with all that follows from it.
    pub fn ban(&self, engine: &mut Engine, texts: &Vec<String>) -> (r: Result<
        Vec<BannedToken>,
        EngineError,
    >)
        requires
            old(engine).wf(),
        ensures
            final(engine).wf(),
            old(engine)@.ban_outcome(
                final(engine)@,
                self@,
                texts_of(texts@),
                match r {
                    Ok(added) => Ok(banned_views(added@)),
                    Err(e) => Err(e),
                },
            ),
    {
        engine.ban(self, texts)
    }

    /// Lifts the ban of `texts` in this context.
    pub fn unban(&self, engine: &mut Engine, texts: &Vec<String>) -> (r: Result<(), EngineError>)
        requires
            old(engine).wf(),
        ensures
            final(engine).wf(),
            old(engine)@.unban_outcome(final(engine)@, self@, texts_of(texts@), r),
    {
        engine.unban(self, texts)
    }
}

/// The engine: all contexts, and what is the same in each of them.
pub struct Engine {
    model: Model,
}

impl View for Engine {
    type V = ModelView;

    closed spec fn view(&self) -> ModelView {
        self.model@
    }
}

impl Engine {
    /// Whether the engine meets its constraints.
    pub closed spec fn wf(&self) -> bool {
        self.model.wf()
    }

    /// Whether there is a context `id`.
    pub fn context_exists(&self, id: &str) -> (found: bool)
        ensures
            found == self@.manager.has(id@),
    {
        self.model.context_exists(id)
    }

    /// A handle on the context `id`, which is created empty where there is
    /// none.
    pub fn get_context(&mut self, id: &str) -> (r: Result<Context, EngineError>)
        requires
            old(self).wf(),
        ensures
            final(self).wf(),
            old(self)@.get_outcome(
                final(self)@,
                id@,
                match r {
                    Ok(context) => Ok(context@),
                    Err(e) => Err(e),
                },
            ),
    {
        self.model.get_context(id)
    }

    /// Drops the context `id`: its store is gone, and the handles on it are
    /// of no use any more.
    pub fn drop_context(&mut self, id: &str) -> (r: Result<(), EngineError>)
        requires
            old(self).wf(),
        ensures
            final(self).wf(),
            old(self)@.drop_outcome(final(self)@, id@, r),
    {
        self.model.drop_context(id)
    }

    /// The store of `context`.
    pub fn database(&self, context: &Context) -> (r: Result<&Database, EngineError>)
        requires
            self.wf(),
        ensures
            match self@.manager.position(context@.id, context@.serial) {
                Some(i) => r is Ok && r->Ok_0@ == self@.manager.stores[i].database,
                None => r == Err::<&Database, EngineError>(EngineError::ContextDropped),
            },
    {
        self.model.database(context)
    }

    /// Registers `database` as the store of a new context `id`.
    pub fn restore_context(&mut self, id: &str, database: Database) -> (r: Result<
        Context,
        EngineError,
    >)
        requires
            old(self).wf(),
            database.wf(),
        ensures
            final(self).wf(),
            old(self)@.restore_outcome(
                final(self)@,
                id@,
                database@,
                match r {
                    Ok(context) => Ok(context@),
                    Err(e) => Err(e),
                },
            ),
    {
        self.model.restore_context(id, database)
    }

    /// Learns `texts` in `context` at time `now`.
    pub fn learn(
        &mut self,
        context: &Context,
        texts: &Vec<String>,
        learnable: bool,
        now: i64,
    ) -> (r: Result<(), EngineError>)
        requires
            old(self).wf(),
        ensures
            final(self).wf(),
            old(self)@.learn_outcome(final(self)@, context@, texts_of(texts@), learnable, now, r),
    {
        self.model.learn(context, texts, learnable, now)
    }

    /// Bans `texts` in `context`, with all that follows from it.
    pub fn ban(&mut self, context: &Context, texts: &Vec<String>) -> (r: Result<
        Vec<BannedToken>,
        EngineError,
    >)
        requires
            old(self).wf(),
        ensures
            final(self).wf(),
            old(self)@.ban_outcome(
                final(self)@,
                context@,
                texts_of(texts@),
                match r {
                    Ok(added) => Ok(banned_views(added@)),
                    Err(e) => Err(e),
                },
            ),
    {
        self.model.ban(context, texts)
    }

    /// Generates a text from `seed` in `context` at time `now`: keywords
    /// are made up from tokens drawn by `draw`, and the walks step by the
    /// rolls.
    pub fn generate(
        &self,
        context: &Context,
        seed: &Vec<String>,
        now: i64,
        draw: u64,
        forward_rolls: &Vec<u64>,
        reverse_rolls: &Vec<u64>,
    ) -> (r: Result<Option<String>, EngineError>)
        requires
            self.wf(),
        ensures
            self@.generate_outcome(
                context@,
                texts_of(seed@),
                now,
                draw,
                forward_rolls@,
                reverse_rolls@,
                crate::engine::model::generation::said(r),
            ),
    {
        self.model.generate(context, seed, now, draw, forward_rolls, reverse_rolls)
    }

    /// Lifts the ban of `texts` in `context`.
    pub fn unban(&mut self, context: &Context, texts: &Vec<String>) -> (r: Result<(), EngineError>)
        requires
            old(self).wf(),
        ensures
            final(self).wf(),
            old(self)@.unban_outcome(final(self)@, context@, texts_of(texts@), r),
    {
        self.model.unban(context, texts)
    }
}

/// An engine without contexts, for stores below `db_dir`, from the list of
/// the tokens that are never keywords and the list of the texts that are
/// banned in every context, each with one entry to a line.
pub fn new(db_dir: &str, non_keyword_tokens_list: &str, banned_tokens_list: &str) -> (engine: Engine)
    ensures
        engine.wf(),
        engine@ == ModelView::prepared(db_dir@, non_keyword_tokens_list@, banned_tokens_list@),
{
    Engine { model: Model::prepare(db_dir, non_keyword_tokens_list, banned_tokens_list) }
}

/// An engine without contexts, for stores below `db_dir`, from the list of
/// the texts that are banned in every context. Every token can be a
/// keyword.
pub fn prepare(db_dir: &str, banned_tokens_list: &str) -> (engine: Engine)
    ensures
        engine.wf(),
        engine@ == ModelView::prepared(db_dir@, Seq::empty(), banned_tokens_list@),
{
    proof {
        reveal_strlit("");
        assert(""@ =~= Seq::<char>::empty());
    }
    Engine { model: Model::prepare(db_dir, "", banned_tokens_list) }
}

} // verus!
