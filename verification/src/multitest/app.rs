//! The pieces of the chain model around the modules: blocks, and modules that fail or
//! only record what they are sent.
use core::marker::PhantomData;
use vstd::prelude::*;

verus! {

/// The block the chain is at: its height, time in nanoseconds and chain id.
#[derive(Clone, Debug, PartialEq, Eq)]
pub struct BlockInfo {
    pub height: u64,
    pub time: u64,
    pub chain_id: String,
}

/// Moves to the next block: one higher, five seconds later.
pub fn next_block(block: &mut BlockInfo)
    requires
        old(block).height < u64::MAX,
        old(block).time + 5_000_000_000 <= u64::MAX,
    ensures
        final(block).height == old(block).height + 1,
        final(block).time == old(block).time + 5_000_000_000,
        final(block).chain_id == old(block).chain_id,
{
    block.time = block.time + 5_000_000_000;
    block.height = block.height + 1;
}

/// Why a module refused a message.
#[derive(Clone, Copy, Debug, PartialEq, Eq, Structural)]
pub enum ModuleError {
    /// The module takes no exec messages.
    UnexpectedExec,
    /// The module takes no sudo messages.
    UnexpectedSudo,
    /// The module answers no queries.
    UnexpectedQuery,
}

/// A module that refuses everything it is sent.
pub struct FailingModule<ExecT, QueryT, SudoT>(PhantomData<(ExecT, QueryT, SudoT)>);

impl<Exec, Query, Sudo> FailingModule<Exec, Query, Sudo> {
    pub fn new() -> (r: Self) {
        FailingModule(PhantomData)
    }

    pub fn execute(&self, _sender: &String, _msg: Exec) -> (r: Result<(), ModuleError>)
        ensures
            r == Err::<(), ModuleError>(ModuleError::UnexpectedExec),
    {
        Err(ModuleError::UnexpectedExec)
    }

    pub fn sudo(&self, _msg: Sudo) -> (r: Result<(), ModuleError>)
        ensures
            r == Err::<(), ModuleError>(ModuleError::UnexpectedSudo),
    {
        Err(ModuleError::UnexpectedSudo)
    }

    pub fn query(&self, _request: Query) -> (r: Result<Vec<u8>, ModuleError>)
        ensures
            r == Err::<Vec<u8>, ModuleError>(ModuleError::UnexpectedQuery),
    {
        Err(ModuleError::UnexpectedQuery)
    }
}

/// A router for modules tested on their own: it has no other modules to route to.
pub struct MockRouter<ExecC, QueryC>(PhantomData<(ExecC, QueryC)>);

impl<ExecC, QueryC> MockRouter<ExecC, QueryC> {
    pub fn new() -> (r: Self) {
        MockRouter(PhantomData)
    }
}

/// What a caching handler has been sent: the messages executed and the queries asked,
/// in order.
pub struct CachingCustomHandlerState<ExecC, QueryC> {
    execs: Vec<ExecC>,
    queries: Vec<QueryC>,
}

impl<ExecC, QueryC> CachingCustomHandlerState<ExecC, QueryC> {
    pub closed spec fn exec_log(&self) -> Seq<ExecC> {
        self.execs@
    }

    pub closed spec fn query_log(&self) -> Seq<QueryC> {
        self.queries@
    }

    pub fn new() -> (r: Self)
        ensures
            r.exec_log().len() == 0,
            r.query_log().len() == 0,
    {
        CachingCustomHandlerState { execs: Vec::new(), queries: Vec::new() }
    }

    pub fn execs(&self) -> (r: &[ExecC])
        ensures
            r@ == self.exec_log(),
    {
        self.execs.as_slice()
    }

    pub fn queries(&self) -> (r: &[QueryC])
        ensures
            r@ == self.query_log(),
    {
        self.queries.as_slice()
    }

    pub fn reset(&mut self)
        ensures
            final(self).exec_log().len() == 0,
            final(self).query_log().len() == 0,
    {
        self.execs.clear();
        self.queries.clear();
    }
}

/// Custom handler storing all the messages it received, so they can be later verified.
pub struct CachingCustomHandler<ExecC, QueryC> {
    state: CachingCustomHandlerState<ExecC, QueryC>,
}

impl<ExecC, QueryC> CachingCustomHandler<ExecC, QueryC> {
    /// What the handler has been sent.
    pub closed spec fn log(&self) -> &CachingCustomHandlerState<ExecC, QueryC> {
        &self.state
    }

    pub fn new() -> (r: Self)
        ensures
            r.log().exec_log().len() == 0,
            r.log().query_log().len() == 0,
    {
        CachingCustomHandler { state: CachingCustomHandlerState::new() }
    }

    pub fn state(&self) -> (r: &CachingCustomHandlerState<ExecC, QueryC>)
        ensures
            r == self.log(),
    {
        &self.state
    }

    /// Forgets everything the handler has been sent.
    pub fn reset(&mut self)
        ensures
            final(self).log().exec_log().len() == 0,
            final(self).log().query_log().len() == 0,
    {
        self.state.reset();
    }

    /// Records the message; executing always succeeds.
    pub fn execute(&mut self, msg: ExecC)
        ensures
            final(self).log().exec_log() == old(self).log().exec_log().push(msg),
            final(self).log().query_log() == old(self).log().query_log(),
    {
        self.state.execs.push(msg);
    }

    /// Records the query; the answer is empty.
    pub fn query(&mut self, request: QueryC) -> (r: Vec<u8>)
        ensures
            final(self).log().query_log() == old(self).log().query_log().push(request),
            final(self).log().exec_log() == old(self).log().exec_log(),
            r@.len() == 0,
    {
        self.state.queries.push(request);
        Vec::new()
    }

    /// The handler takes no sudo messages.
    pub fn sudo(&self) -> (r: Result<(), ModuleError>)
        ensures
            r == Err::<(), ModuleError>(ModuleError::UnexpectedSudo),
    {
        Err(ModuleError::UnexpectedSudo)
    }
}

} // verus!
