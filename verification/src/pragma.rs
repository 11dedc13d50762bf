//! The settings of a SQLite connection that the storage layer can ask for.

use vstd::prelude::*;

verus! {

/// One `PRAGMA` setting with its value.
#[derive(Debug, Clone, Copy)]
pub enum SQLitePragma {
    JournalMode(SQLiteJournalMode),
    AutomaticIndex(bool),
    BusyTimeout(u32),
    CacheSize(SQLiteCacheSize),
    CellSizeCheck(bool),
    CheckpointFullSync(bool),
    DeferForeignKeys(bool),
    Encoding(SQLiteEncoding),
    ForeignKeys(bool),
    FullFSync(bool),
    HardHeapLimit(u64),
    IgnoreCheckConstraints(bool),
    JournalSizeLimit(u64),
    LockingMode(SQLiteLockingMode),
    MaxPageCount(u32),
    MmapSize(u64),
    PageCount(u32),
    QueryOnly(bool),
    Synchronous(SQLiteSynchronizationMode),
    TempStore(SQLiteTempStore),
    Threads(u32),
    UserVersion(u32),
    WalAutoCheckpoint(u32),
}

#[derive(Debug, Clone, Copy)]
pub enum SQLiteWalCheckpointMode {
    Passive,
    Full,
    Restart,
    Truncate,
}

#[derive(Debug, Clone, Copy)]
pub enum SQLiteTempStore {
    Default,
    File,
    Memory,
}

#[derive(Debug, Clone, Copy)]
pub enum SQLiteSynchronizationMode {
    Off,
    Normal,
    Full,
    Extra,
}

#[derive(Debug, Clone, Copy)]
pub enum SQLiteLockingMode {
    Normal,
    Exclusive,
}

#[derive(Debug, Clone, Copy)]
pub enum SQLiteEncoding {
    Utf8,
    Utf16,
    Utf16LE,
    Utf16BE,
}

#[derive(Debug, Clone, Copy)]
pub enum SQLiteJournalMode {
    Delete,
    Truncate,
    Persist,
    Memory,
    Wal,
    Off,
}

#[derive(Debug, Clone, Copy)]
pub enum SQLiteCacheSize {
    KibiBytes(u32),
    Pages(u32),
}

/// The settings asked for, in the order in which they were asked for.
pub struct PragmaList {
    pub pragmas: Vec<SQLitePragma>,
}

impl PragmaList {
    /// No setting is asked for.
    pub fn new() -> (r: PragmaList)
        ensures
            r.pragmas@.len() == 0,
    {
        PragmaList { pragmas: Vec::new() }
    }

    /// Adds `pragma` after the settings asked for so far.
    pub fn set_pragma(self, pragma: SQLitePragma) -> (r: PragmaList)
        ensures
            r.pragmas@ == self.pragmas@.push(pragma),
    {
        let mut list = self;
        list.pragmas.push(pragma);
        list
    }
}

} // verus!
