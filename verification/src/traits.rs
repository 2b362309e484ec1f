//! The pluggable audit hook the store invokes on its operations.
use vstd::prelude::*;

use crate::types::{RedisError, RedisOp, RedisType};

verus! {

/// An audit hook called by the store: `Add` and `Delete` are recorded
/// before they take effect, and a failure makes the store abort them;
/// a failure while recording a `Get` is ignored.
pub trait RedisLogger {
    /// Records one store operation with the key and value it concerns.
    fn log(&mut self, operation: RedisOp, key: Option<RedisType>, value: Option<RedisType>) -> Result<(), RedisError>;
}

/// A logger that accepts every record and keeps nothing; recording
/// never fails.
pub struct DefaultLogger;

impl DefaultLogger {
    pub fn new() -> (r: DefaultLogger) {
        DefaultLogger
    }
}

impl Default for DefaultLogger {
    fn default() -> (r: DefaultLogger)
        ensures
            r == DefaultLogger,
    {
        DefaultLogger
    }
}

impl RedisLogger for DefaultLogger {
    fn log(&mut self, operation: RedisOp, key: Option<RedisType>, value: Option<RedisType>) -> (r:
        Result<(), RedisError>)
        ensures
            r is Ok,
    {
        Ok(())
    }
}

/// A logger that keeps every record in memory, in arrival order, for a
/// caller to drain and persist; recording never fails.
pub struct FileLogger {
    entries: Vec<(RedisOp, Option<RedisType>, Option<RedisType>)>,
}

impl FileLogger {
    /// The records accepted so far, oldest first.
    pub closed spec fn records(&self) -> Seq<(RedisOp, Option<RedisType>, Option<RedisType>)> {
        self.entries@
    }

    pub fn new() -> (r: FileLogger)
        ensures
            r.records() == Seq::<(RedisOp, Option<RedisType>, Option<RedisType>)>::empty(),
    {
        FileLogger { entries: Vec::new() }
    }

    /// Hands out everything recorded so far and leaves the logger empty.
    pub fn take_entries(&mut self) -> (r: Vec<(RedisOp, Option<RedisType>, Option<RedisType>)>)
        ensures
            r@ == old(self).records(),
            final(self).records() == Seq::<(RedisOp, Option<RedisType>, Option<RedisType>)>::empty(),
    {
        let mut out: Vec<(RedisOp, Option<RedisType>, Option<RedisType>)> = Vec::new();
        core::mem::swap(&mut out, &mut self.entries);
        out
    }

    /// How many records the logger holds.
    pub fn len(&self) -> (n: usize)
        ensures
            n == self.records().len(),
    {
        self.entries.len()
    }
}

impl Default for FileLogger {
    fn default() -> (r: FileLogger)
        ensures
            r.records() == Seq::<(RedisOp, Option<RedisType>, Option<RedisType>)>::empty(),
    {
        FileLogger { entries: Vec::new() }
    }
}

impl RedisLogger for FileLogger {
    fn log(&mut self, operation: RedisOp, key: Option<RedisType>, value: Option<RedisType>) -> (r:
        Result<(), RedisError>)
        ensures
            r is Ok,
            final(self).records() == old(self).records().push((operation, key, value)),
    {
        self.entries.push((operation, key, value));
        Ok(())
    }
}

} // verus!
