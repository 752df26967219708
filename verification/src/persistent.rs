//! The persistence engine: a buffer of records in memory, the file behind
//! it, and the compaction that keeps the file from growing without bound.

use crate::errors::Result;
use crate::file::lemma_after_append;
use crate::file::lemma_after_overwrite;
use crate::file::write_views;
use crate::file::FileWrite;
use crate::file::LogFile;
use crate::history::apply;
use crate::history::compacted;
use crate::history::key_at;
use crate::history::lemma_compaction;
use crate::history::lemma_drop_deleted;
use crate::history::lemma_partly_compacted;
use crate::history::lemma_push_settled;
use crate::history::one_per_key;
use crate::history::replay;
use crate::history::settled;
use crate::history::superseded;
use crate::serial::decode_all;
use crate::serial::encoding_all;
use crate::serial::lemma_decode_concat;
use crate::serial::lemma_encoding_all_decodes;
use crate::serial::live;
use crate::serial::log_views;
use crate::serial::Log;
use crate::serial::LogView;
use vstd::hash_set::StringHashSet;
use vstd::prelude::*;

verus! {

/// How many records the buffer holds before it is flushed.
pub const DISK_BATCH_SIZE: usize = 100;

/// How many records are stored between one compaction and the next.
pub const COMPACT_PERIOD: u32 = 400;

/// How often compaction tries to write the file before it gives up.
pub const COMPACT_ATTEMPTS: usize = 3;

/// What keeps the records of a store. An implementation says what each of
/// the three operations makes of it, and shows that what it keeps stands
/// for the right state throughout.
pub trait Persistenter: Sized {
    /// The records that are kept, in the order in which `get_all_logs`
    /// hands them out.
    spec fn history(&self) -> Seq<LogView>;

    /// Whether the records that are kept can be read, and nothing is lost
    /// when the deleted ones are dropped.
    spec fn sound(&self) -> bool;

    /// What `store_log` with `log` makes of `before`, and what it returns.
    spec fn stored_log(&self, before: Self, log: LogView, r: Result<()>) -> bool;

    /// What `get_all_logs` makes of `before`, and what it returns.
    spec fn handed_out(&self, before: Self, r: Result<Vec<Log>>) -> bool;

    /// What `flush` makes of `before`, and what it returns.
    spec fn flushed(&self, before: Self, r: Result<()>) -> bool;

    /// Storing a live record leaves what is kept sound. It then stands for
    /// the state after the record's command, whatever was returned: a
    /// record that could not be written out is still kept.
    proof fn lemma_stored_log(&self, before: Self, log: LogView, r: Result<()>)
        requires
            self.stored_log(before, log, r),
            before.sound(),
            !log.deleted,
        ensures
            self.sound(),
            replay(self.history()) == apply(replay(before.history()), log.command),
    ;

    /// Handing out the records changes neither the records nor whether
    /// they are sound, and the records handed out are those that are kept.
    proof fn lemma_handed_out(&self, before: Self, r: Result<Vec<Log>>)
        requires
            self.handed_out(before, r),
        ensures
            self.history() == before.history(),
            self.sound() == before.sound(),
            r is Ok ==> log_views(r.unwrap()@) == before.history(),
    ;

    /// A flush leaves what is kept sound, and it stands for the same state.
    proof fn lemma_flushed(&self, before: Self, r: Result<()>)
        requires
            self.flushed(before, r),
            before.sound(),
        ensures
            self.sound(),
            replay(self.history()) == replay(before.history()),
    ;

    /// Takes one more record.
    fn store_log(&mut self, log: Log) -> (r: Result<()>)
        ensures
            final(self).stored_log(*old(self), log@, r),
    ;

    /// Hands out all the records that are kept, oldest first.
    fn get_all_logs(&mut self) -> (r: Result<Vec<Log>>)
        ensures
            final(self).handed_out(*old(self), r),
    ;

    /// Writes out what is buffered.
    fn flush(&mut self) -> (r: Result<()>)
        ensures
            final(self).flushed(*old(self), r),
    ;
}

/// The engine over one file: records are buffered in memory, flushed to the
/// end of the file once the buffer is full, and merged with the file's own
/// records every `COMPACT_PERIOD` records.
///
/// The engine writes to an image of the file, and the program around it
/// repeats each write on the file itself. The last write stays open until
/// the program says how it went on disk, or lets it stand. While a write
/// is open, the engine keeps the records that the write took out of the
/// buffer, so that it can put them back if the write failed on disk.
pub struct Disk {
    logs_in_mem: Vec<Log>,
    file: LogFile,
    max_size: usize,
    compact_counter: u32,
    open: bool,
    restore: Vec<Log>,
    retries: usize,
    merging: bool,
    gave_up: bool,
}

impl Disk {
    /// The records that are buffered, oldest first.
    pub closed spec fn buffered(self) -> Seq<LogView> {
        log_views(self.logs_in_mem@)
    }

    /// The file behind the buffer.
    pub closed spec fn file(self) -> LogFile {
        self.file
    }

    /// How many records the buffer holds before it is flushed.
    pub closed spec fn max_size(self) -> nat {
        self.max_size as nat
    }

    /// How many records were stored since the count last came round.
    pub closed spec fn ticks(self) -> nat {
        (self.compact_counter % COMPACT_PERIOD) as nat
    }

    /// Whether the last write to the file is open: the program around the
    /// engine has not said yet how it went on disk.
    pub closed spec fn open(self) -> bool {
        self.open
    }

    /// The records that go back into the buffer if the open write turns
    /// out to have failed on disk for good.
    pub closed spec fn restore(self) -> Seq<LogView> {
        log_views(self.restore@)
    }

    /// How many more times the open write may fail on disk before the
    /// engine takes it back.
    pub closed spec fn retries(self) -> nat {
        self.retries as nat
    }

    /// Whether the open write is a compaction's.
    pub closed spec fn merging(self) -> bool {
        self.merging
    }

    /// Whether the last compaction gave up and left the file as it was.
    pub closed spec fn given_up(self) -> bool {
        self.gave_up
    }

    /// The records in the file, or `None` where the file does not hold
    /// records.
    pub open spec fn stored(self) -> Option<Seq<LogView>> {
        decode_all(self.file().contents())
    }

    /// Whether the engine holds what `before` held: the same buffer and
    /// the same file.
    pub open spec fn holds_what(self, before: Self) -> bool {
        self.buffered() == before.buffered() && self.file() == before.file()
    }

    /// Whether the engine stands where `before` stood with its last write:
    /// as open or not, with the same records to put back and as many
    /// failures to go.
    pub open spec fn same_write(self, before: Self) -> bool {
        &&& self.open() == before.open()
        &&& self.restore() == before.restore()
        &&& self.retries() == before.retries()
        &&& self.merging() == before.merging()
    }

    /// Whether nothing but the count of records tells the engine from
    /// `before`.
    pub open spec fn unchanged(self, before: Self) -> bool {
        &&& self.holds_what(before)
        &&& self.same_write(before)
        &&& self.given_up() == before.given_up()
    }

    /// Whether the last write is a write of `restore` with `retries`
    /// failures to go.
    pub open spec fn opened(self, restore: Seq<LogView>, retries: nat, merging: bool) -> bool {
        &&& self.open()
        &&& self.restore() == restore
        &&& self.retries() == retries
        &&& self.merging() == merging
    }

    /// The history that the engine falls back to if the open write is
    /// taken back: the records that the file held before the write, the
    /// records to put back, and the buffer.
    pub open spec fn fallback(self) -> Option<Seq<LogView>> {
        match decode_all(self.file().contents_before_last()) {
            Some(stored) => Some(stored + self.restore() + self.buffered()),
            None => None,
        }
    }

    /// Whether taking back the open write loses nothing: a write was
    /// recorded, and the history to fall back to is settled and stands for
    /// the state that the history stands for.
    pub open spec fn can_fall_back(self) -> bool {
        &&& self.file().recorded().len() > 0
        &&& self.fallback() is Some
        &&& settled(self.fallback().unwrap())
        &&& replay(self.fallback().unwrap()) == replay(self.history())
    }

    /// What a flush makes of the buffer and the file of the engine
    /// `before`. An empty buffer is left alone. Otherwise an older write
    /// stands as it is, the buffer's records are written behind what the
    /// file holds, and the buffer is emptied; the write is open, with the
    /// buffer's records to put back. Where a record cannot be encoded or
    /// the file refuses the write, nothing else changes but the number of
    /// writes that the file still refuses.
    pub open spec fn flushed_buffer(self, before: Self, r: Result<()>) -> bool {
        &&& self.given_up() == before.given_up()
        &&& if before.buffered().len() == 0 {
            &&& r is Ok
            &&& self.unchanged(before)
        } else {
            match encoding_all(before.buffered()) {
                None => {
                    &&& r is Err
                    &&& (r.unwrap_err() is SerialError || r.unwrap_err() is BinaryError)
                    &&& self.holds_what(before)
                    &&& !self.open()
                },
                Some(bytes) => if before.file().refusals() == 0 {
                    &&& r is Ok
                    &&& self.buffered() == Seq::<LogView>::empty()
                    &&& self.file().wrote(before.file(), bytes, true)
                    &&& self.opened(before.buffered(), 0, false)
                } else {
                    &&& r is Err
                    &&& r.unwrap_err() is DiskError
                    &&& self.buffered() == before.buffered()
                    &&& self.file().refused(before.file(), 1)
                    &&& !self.open()
                },
            }
        }
    }

    /// What compaction makes of the engine `before`. The file's records and
    /// the buffer's, in this order, are merged. Where the merged records can
    /// be written over the file in `COMPACT_ATTEMPTS` attempts, the file
    /// holds the live ones of them and the buffer is empty; the write is
    /// open, with the attempts that are left to go. Otherwise compaction
    /// gives up: the file is left as it is and the buffer holds the merged
    /// records behind those that came from the file. Where the file cannot
    /// be read, nothing is merged and nothing changes.
    pub open spec fn compacted_from(self, before: Self, r: Result<()>) -> bool {
        if before.file().unreadable() {
            &&& r is Err
            &&& r.unwrap_err() is DiskError
            &&& self.unchanged(before)
        } else {
            match before.stored() {
                None => {
                    &&& r is Err
                    &&& (r.unwrap_err() is BinaryError || r.unwrap_err() is SerialError)
                    &&& self.unchanged(before)
                },
                Some(stored) => {
                    let merged = compacted(stored + before.buffered());
                    let rest = merged.skip(stored.len() as int);
                    &&& r is Ok
                    &&& if merged.len() == 0 || encoding_all(merged) is None {
                        &&& self.buffered() == rest
                        &&& self.file() == before.file()
                        &&& !self.open()
                        &&& self.given_up() == (merged.len() > 0)
                    } else if before.file().refusals() < COMPACT_ATTEMPTS {
                        &&& self.buffered() == Seq::<LogView>::empty()
                        &&& self.file().wrote(before.file(), encoding_all(merged).unwrap(), false)
                        &&& self.opened(
                            rest,
                            (COMPACT_ATTEMPTS - 1 - before.file().refusals()) as nat,
                            true,
                        )
                        &&& !self.given_up()
                    } else {
                        &&& self.buffered() == rest
                        &&& self.file().refused(before.file(), COMPACT_ATTEMPTS as nat)
                        &&& !self.open()
                        &&& self.given_up()
                    }
                },
            }
        }
    }

    /// What storing `log` makes of the engine `before`, by way of the
    /// engine `pushed`, whose buffer holds the record, and the engine
    /// `merged` after the compaction.
    pub open spec fn stored_by_way_of(
        self,
        before: Self,
        log: LogView,
        r: Result<()>,
        pushed: Self,
        merged: Self,
    ) -> bool {
        let ticks = (before.ticks() + 1) % (COMPACT_PERIOD as nat);
        let due = (ticks + 1) % (COMPACT_PERIOD as nat) == 0;
        &&& pushed.buffered() == before.buffered().push(log)
        &&& pushed.file() == before.file()
        &&& pushed.same_write(before)
        &&& !pushed.given_up()
        &&& if due {
            exists|c: Result<()>| #[trigger] merged.compacted_from(pushed, c)
        } else {
            merged.unchanged(pushed)
        }
        &&& if merged.buffered().len() >= before.max_size() {
            self.flushed_buffer(merged, r)
        } else {
            r is Ok && self.unchanged(merged)
        }
    }

    /// An engine over `file` with an empty buffer.
    pub fn new(file: LogFile) -> (disk: Self)
        ensures
            disk.file() == file,
            disk.buffered() == Seq::<LogView>::empty(),
            disk.max_size() == DISK_BATCH_SIZE,
            disk.ticks() == 0,
            !disk.open(),
            !disk.given_up(),
    {
        Disk {
            logs_in_mem: Vec::new(),
            file,
            max_size: DISK_BATCH_SIZE,
            compact_counter: 0,
            open: false,
            restore: Vec::new(),
            retries: 0,
            merging: false,
            gave_up: false,
        }
    }

    /// How many records are buffered.
    pub fn pending(&self) -> (n: usize)
        ensures
            n == self.buffered().len(),
    {
        self.logs_in_mem.len()
    }

    /// Gives up the engine for its file, if nothing is buffered. An engine
    /// that still buffers records is handed back, so that no record is
    /// lost: flush first.
    pub fn into_file(self) -> (r: core::result::Result<LogFile, Disk>)
        ensures
            match r {
                Ok(file) => self.buffered().len() == 0 && file == self.file(),
                Err(disk) => self.buffered().len() > 0 && disk == self,
            },
    {
        if self.logs_in_mem.len() == 0 {
            Ok(self.file)
        } else {
            Err(self)
        }
    }

    /// Hands out the writes that were made to the file and not handed out
    /// before, oldest first, for the caller to repeat on the file on disk.
    /// The engine keeps what it kept, and lets the last write stand.
    pub fn take_writes(&mut self) -> (writes: Vec<FileWrite>)
        ensures
            write_views(writes@) == old(self).file().recorded(),
            final(self).file().taken(old(self).file()),
            final(self).file().contents() == old(self).file().contents(),
            final(self).buffered() == old(self).buffered(),
            final(self).max_size() == old(self).max_size(),
            final(self).ticks() == old(self).ticks(),
            !final(self).open(),
            final(self).given_up() == old(self).given_up(),
            final(self).history() == old(self).history(),
            old(self).sound() ==> final(self).sound(),
    {
        self.let_stand();
        self.file.take_writes()
    }

    /// Lets the last write stand: it is open no longer, and the records
    /// that it took out of the buffer are kept no longer.
    fn let_stand(&mut self)
        ensures
            final(self).holds_what(*old(self)),
            final(self).max_size() == old(self).max_size(),
            final(self).ticks() == old(self).ticks(),
            final(self).given_up() == old(self).given_up(),
            !final(self).open(),
    {
        self.open = false;
        self.restore.clear();
    }

    /// The write that is open, if one is: the program around the engine
    /// repeats it on the file on disk and says with `written` how it went.
    pub fn open_write(&self) -> (w: Option<FileWrite>)
        ensures
            match w {
                Some(w) => self.open() && self.file().recorded().len() > 0 && w@
                    == self.file().recorded().last(),
                None => !self.open() || self.file().recorded().len() == 0,
            },
    {
        if self.open {
            self.file.last_write()
        } else {
            None
        }
    }

    /// Whether the last compaction gave up and left the file as it was.
    pub fn gave_up(&self) -> (b: bool)
        ensures
            b == self.given_up(),
    {
        self.gave_up
    }

    /// What the answer `ok` for the open write makes of the engine
    /// `before`. Without an open write it makes nothing of it. A write that
    /// went well stands, and the file records it no longer, nor any write
    /// before it. A write that failed stays open while it has
    /// failures to go, to be repeated. After that it is taken back: the
    /// file holds what it held before the write, the records that the
    /// write took out of the buffer are back in front of it, and if the
    /// write was a compaction's, the compaction has given up.
    pub open spec fn answered(self, before: Self, ok: bool) -> bool {
        &&& self.max_size() == before.max_size()
        &&& self.ticks() == before.ticks()
        &&& if !before.open() {
            self.unchanged(before)
        } else if ok {
            &&& self.buffered() == before.buffered()
            &&& self.file().taken(before.file())
            &&& !self.open()
            &&& self.given_up() == before.given_up()
        } else if before.retries() > 0 {
            &&& self.holds_what(before)
            &&& self.opened(before.restore(), (before.retries() - 1) as nat, before.merging())
            &&& self.given_up() == before.given_up()
        } else {
            &&& self.file().retracted(before.file())
            &&& self.buffered() == before.restore() + before.buffered()
            &&& !self.open()
            &&& self.given_up() == (before.merging() || before.given_up())
        }
    }

    /// Takes the answer for the open write: whether it went well when it
    /// was repeated on the file on disk.
    pub fn written(&mut self, ok: bool)
        ensures
            final(self).answered(*old(self), ok),
    {
        if !self.open {
            return ;
        }
        if ok {
            self.let_stand();
            let _ = self.file.take_writes();
            return ;
        }
        if self.retries > 0 {
            self.retries = self.retries - 1;
            return ;
        }
        self.file.retract();
        let mut back: Vec<Log> = Vec::new();
        proof {
            assert(log_views(self.restore@ + self.logs_in_mem@) =~= old(self).restore() + old(
                self,
            ).buffered());
        }
        back.append(&mut self.restore);
        back.append(&mut self.logs_in_mem);
        self.logs_in_mem = back;
        self.open = false;
        if self.merging {
            self.gave_up = true;
        }
    }

    /// An answer for the open write leaves a sound engine sound, and what
    /// it keeps stands for the same state.
    pub proof fn lemma_answer_keeps_state(before: Self, after: Self, ok: bool)
        requires
            after.answered(before, ok),
            before.sound(),
        ensures
            after.sound(),
            replay(after.history()) == replay(before.history()),
    {
        if before.open() && !ok && before.retries() == 0 {
            assert(after.file().contents() == before.file().contents_before_last());
            assert(after.history() =~= before.fallback().unwrap());
        }
    }

    /// Whether compaction is due with the record that is being stored.
    pub fn should_compact(&self) -> (due: bool)
        ensures
            due == ((self.ticks() + 1) % (COMPACT_PERIOD as nat) == 0),
    {
        (self.compact_counter % COMPACT_PERIOD + 1) % COMPACT_PERIOD == 0
    }

    /// Writes `logs` to `file`: behind what it holds if `append` is set, in
    /// place of it otherwise. Nothing is written where a record cannot be
    /// encoded.
    pub fn write_logs_to_file(file: &mut LogFile, logs: &Vec<Log>, append: bool) -> (r: Result<()>)
        ensures
            match encoding_all(log_views(logs@)) {
                Some(bytes) => match r {
                    Ok(_) => old(file).refusals() == 0 && final(file).wrote(
                        *old(file),
                        bytes,
                        append,
                    ),
                    Err(e) => old(file).refusals() > 0 && final(file).refused(*old(file), 1)
                        && e is DiskError,
                },
                None => {
                    &&& r is Err
                    &&& (r.unwrap_err() is SerialError || r.unwrap_err() is BinaryError)
                    &&& *final(file) == *old(file)
                },
            },
    {
        match Log::encode_all(logs) {
            Ok(bytes) => file.write(&bytes, append),
            Err(e) => Err(e),
        }
    }

    /// Reads the records in the file, oldest first.
    pub fn read_logs_from_file(&self) -> (r: Result<Vec<Log>>)
        ensures
            match r {
                Ok(logs) => !self.file().unreadable() && self.stored() == Some(log_views(logs@)),
                Err(e) => if self.file().unreadable() {
                    e is DiskError
                } else {
                    self.stored() is None && (e is BinaryError || e is SerialError)
                },
            },
    {
        match self.file.read() {
            Ok(bytes) => Log::decode_all(bytes),
            Err(e) => Err(e),
        }
    }

    /// Merges the buffer: marks every buffered record that a later one has
    /// superseded.
    pub fn compact_in_mem(&mut self)
        ensures
            final(self).buffered() == compacted(old(self).buffered()),
            final(self).file() == old(self).file(),
            final(self).max_size() == old(self).max_size(),
            final(self).ticks() == old(self).ticks(),
            final(self).given_up() == old(self).given_up(),
            !final(self).open(),
    {
        self.let_stand();
        Self::compact_logs_in_place(&mut self.logs_in_mem);
    }

    /// Merges the file's records with the buffer's and writes the live ones
    /// over the file.
    pub fn compact_all(&mut self) -> (r: Result<()>)
        ensures
            final(self).compacted_from(*old(self), r),
            final(self).max_size() == old(self).max_size(),
            final(self).ticks() == old(self).ticks(),
    {
        let mut file_logs = match self.read_logs_from_file() {
            Ok(logs) => logs,
            Err(e) => {
                return Err(e);
            },
        };
        let file_log_size = file_logs.len();
        let ghost stored = log_views(file_logs@);
        let ghost merged = compacted(stored + old(self).buffered());
        self.let_stand();
        proof {
            assert(log_views(file_logs@ + self.logs_in_mem@) =~= stored + old(self).buffered());
        }
        file_logs.append(&mut self.logs_in_mem);
        Self::compact_logs_in_place(&mut file_logs);
        self.logs_in_mem = file_logs;
        self.gave_up = false;
        if self.logs_in_mem.len() > 0 {
            let mut attempt: usize = 0;
            while attempt < COMPACT_ATTEMPTS
                invariant
                    attempt <= COMPACT_ATTEMPTS,
                    !old(self).file().unreadable(),
                    old(self).stored() == Some(stored),
                    merged == compacted(stored + old(self).buffered()),
                    self.buffered() == merged,
                    merged.len() > 0,
                    stored.len() == file_log_size,
                    stored.len() <= merged.len(),
                    self.max_size() == old(self).max_size(),
                    self.ticks() == old(self).ticks(),
                    !self.open(),
                    !self.given_up(),
                    if encoding_all(merged) is Some {
                        self.file().refused(old(self).file(), attempt as nat)
                    } else {
                        self.file() == old(self).file()
                    },
                decreases COMPACT_ATTEMPTS - attempt,
            {
                if Self::write_logs_to_file(&mut self.file, &self.logs_in_mem, false).is_ok() {
                    let rest = self.logs_in_mem.split_off(file_log_size);
                    proof {
                        assert(log_views(rest@) =~= merged.skip(stored.len() as int));
                    }
                    self.logs_in_mem.clear();
                    assert(log_views(self.logs_in_mem@) =~= Seq::<LogView>::empty());
                    self.restore = rest;
                    self.open = true;
                    self.retries = COMPACT_ATTEMPTS - 1 - attempt;
                    self.merging = true;
                    return Ok(());
                }
                attempt += 1;
            }
            let kept = self.logs_in_mem.split_off(file_log_size);
            proof {
                assert(log_views(kept@) =~= merged.skip(stored.len() as int));
            }
            self.logs_in_mem = kept;
            self.gave_up = true;
        } else {
            assert(merged.skip(stored.len() as int) =~= merged);
        }
        Ok(())
    }

    /// Runs compaction if it is due. Whether compaction fails makes no
    /// difference to the caller.
    pub fn check_compact(&mut self)
        ensures
            final(self).max_size() == old(self).max_size(),
            final(self).ticks() == old(self).ticks(),
            if (old(self).ticks() + 1) % (COMPACT_PERIOD as nat) == 0 {
                exists|c: Result<()>| #[trigger] final(self).compacted_from(*old(self), c)
            } else {
                final(self).unchanged(*old(self))
            },
    {
        if self.should_compact() {
            let _ = self.compact_all();
        }
    }

    /// A flush leaves a sound engine sound, and what it keeps stands for the
    /// same state.
    pub proof fn lemma_flush_keeps_state(before: Self, after: Self, r: Result<()>)
        requires
            after.flushed_buffer(before, r),
            before.sound(),
        ensures
            after.sound(),
            replay(after.history()) == replay(before.history()),
    {
        let stored = before.stored().unwrap();
        let buffer = before.buffered();
        if buffer.len() > 0 && encoding_all(buffer) is Some && before.file().refusals() == 0 {
            let bytes = encoding_all(buffer).unwrap();
            lemma_after_append(before.file(), after.file(), bytes);
            lemma_encoding_all_decodes(buffer);
            lemma_decode_concat(before.file().contents(), bytes, 0);
            lemma_drop_deleted(Map::empty(), stored, buffer);
            assert(after.history() =~= stored + live(buffer));
            assert(after.file().recorded().drop_last() =~= before.file().recorded());
            assert(after.fallback().unwrap() =~= before.history());
        }
    }

    /// Compaction leaves a sound engine sound, and what it keeps stands for
    /// the same state. Where it has written the file anew, no two records
    /// in the file change the same key.
    pub proof fn lemma_compaction_keeps_state(before: Self, after: Self, r: Result<()>)
        requires
            after.compacted_from(before, r),
            before.sound(),
        ensures
            after.sound(),
            replay(after.history()) == replay(before.history()),
            after.file().recorded().len() > before.file().recorded().len() ==> one_per_key(
                after.stored().unwrap(),
            ),
    {
        let stored = before.stored().unwrap();
        let buffer = before.buffered();
        let merged = compacted(stored + buffer);
        if r is Ok {
            if merged.len() > 0 && encoding_all(merged) is Some && before.file().refusals()
                < COMPACT_ATTEMPTS {
                lemma_after_overwrite(before.file(), after.file(), encoding_all(merged).unwrap());
                lemma_partly_compacted(Map::empty(), stored, buffer);
                assert(after.file().recorded().drop_last() =~= before.file().recorded());
                assert(after.fallback().unwrap() =~= stored + merged.skip(stored.len() as int));
                lemma_encoding_all_decodes(merged);
                lemma_compaction(stored + buffer);
                assert(after.history() =~= live(merged));
            } else {
                lemma_partly_compacted(Map::empty(), stored, buffer);
            }
        }
    }

    /// Marks as deleted every record that a later record for the same key
    /// has superseded. The most recent record for a key stays as it is,
    /// whatever its command.
    pub fn compact_logs_in_place(logs: &mut Vec<Log>)
        ensures
            log_views(final(logs)@) == compacted(log_views(old(logs)@)),
    {
        let ghost before = log_views(logs@);
        let mut marks = StringHashSet::new();
        let mut i: usize = logs.len();
        while i > 0
            invariant
                i <= logs.len() == before.len(),
                forall|j: int|
                    0 <= j < logs.len() ==> (#[trigger] logs@[j])@.command == before[j].command,
                forall|j: int| 0 <= j < i ==> (#[trigger] logs@[j])@.deleted == before[j].deleted,
                forall|j: int|
                    i <= j < logs.len() ==> (#[trigger] logs@[j])@.deleted == (before[j].deleted
                        || superseded(before, j)),
                forall|k: Seq<char>|
                    marks@.contains(k) <==> exists|j: int|
                        i <= j < before.len() && #[trigger] key_at(before, j) == Some(k),
            decreases i,
        {
            i -= 1;
            let ghost entry = logs@;
            let ghost known = marks@;
            let seen = match logs[i].command.key() {
                Some(key) => {
                    if marks.contains(key.as_str()) {
                        true
                    } else {
                        marks.insert(key.clone());
                        false
                    }
                },
                None => false,
            };
            if seen {
                logs[i].deleted = true;
            }
            proof {
                assert(logs@.len() == entry.len());
                assert(forall|j: int| 0 <= j < logs.len() && j != i ==> logs@[j] == entry[j]);
                assert(logs@[i as int].command == entry[i as int].command);
                assert(logs@[i as int].deleted == (entry[i as int].deleted || seen));
                assert(key_at(before, i as int) == entry[i as int]@.command.key());
                assert(seen == superseded(before, i as int)) by {
                    if key_at(before, i as int) is Some {
                        let k = key_at(before, i as int).unwrap();
                        if known.contains(k) {
                            let j = choose|j: int|
                                i < j < before.len() && #[trigger] key_at(before, j) == Some(k);
                            assert(superseded(before, i as int));
                        }
                        if superseded(before, i as int) {
                            let j = choose|j: int|
                                i < j < before.len() && #[trigger] key_at(before, j) == key_at(
                                    before,
                                    i as int,
                                );
                            assert(known.contains(k));
                        }
                    }
                }
                assert forall|j: int| i <= j < logs.len() implies (#[trigger] logs@[j])@.deleted
                    == (before[j].deleted || superseded(before, j)) by {
                    if j > i {
                        assert(logs@[j] == entry[j]);
                        assert(entry[j]@.deleted == (before[j].deleted || superseded(before, j)));
                    } else {
                        assert(entry[j]@.deleted == before[j].deleted);
                    }
                }
                assert forall|k: Seq<char>| marks@.contains(k) <==> exists|j: int|
                    i <= j < before.len() && #[trigger] key_at(before, j) == Some(k) by {
                    if marks@.contains(k) {
                        if known.contains(k) {
                            let j = choose|j: int|
                                i < j < before.len() && #[trigger] key_at(before, j) == Some(k);
                            assert(i <= j < before.len() && key_at(before, j) == Some(k));
                        } else {
                            assert(key_at(before, i as int) == Some(k));
                        }
                    }
                    if exists|j: int|
                        i <= j < before.len() && #[trigger] key_at(before, j) == Some(k) {
                        let j = choose|j: int|
                            i <= j < before.len() && #[trigger] key_at(before, j) == Some(k);
                        if j > i {
                            assert(known.contains(k));
                        }
                    }
                }
            }
        }
        proof {
            let after = log_views(logs@);
            assert(after.len() == before.len());
            assert forall|j: int| 0 <= j < after.len() implies after[j] == compacted(before)[j] by {
                assert(after[j] == logs@[j]@);
                assert(after[j].command == before[j].command);
                assert(after[j].deleted == (before[j].deleted || superseded(before, j)));
            }
            assert(after =~= compacted(before));
        }
    }
}

impl Default for Disk {
    /// An engine with an empty buffer over an empty file.
    fn default() -> (disk: Self)
        ensures
            disk.file().contents() == Seq::<u8>::empty(),
            disk.file().recorded() == Seq::<(Seq<u8>, bool)>::empty(),
            disk.file().refusals() == 0,
            !disk.file().unreadable(),
            disk.buffered() == Seq::<LogView>::empty(),
            disk.max_size() == DISK_BATCH_SIZE,
            disk.ticks() == 0,
            !disk.open(),
            !disk.given_up(),
    {
        Disk::new(LogFile::new())
    }
}

impl Persistenter for Disk {
    /// The records in the file, then the records in the buffer.
    open spec fn history(&self) -> Seq<LogView> {
        match self.stored() {
            Some(stored) => stored + self.buffered(),
            None => self.buffered(),
        }
    }

    /// The file holds records, every deleted record changes no key or is
    /// superseded, and an open write can be taken back without loss.
    open spec fn sound(&self) -> bool {
        &&& self.stored() is Some
        &&& settled(self.history())
        &&& self.open() ==> self.can_fall_back()
    }

    /// The record joins the buffer first. Then the records are counted;
    /// then comes compaction, if it is due, of the file's records and the
    /// buffer with the new record; then a flush, if the buffer is still
    /// full. Where the flush fails, the record stays in the buffer.
    open spec fn stored_log(&self, before: Self, log: LogView, r: Result<()>) -> bool {
        &&& self.ticks() == (before.ticks() + 1) % (COMPACT_PERIOD as nat)
        &&& self.max_size() == before.max_size()
        &&& exists|pushed: Self, merged: Self| #[trigger]
            self.stored_by_way_of(before, log, r, pushed, merged)
    }

    /// The records of the file, then those of the buffer, are handed out
    /// where the file can be read and holds records.
    open spec fn handed_out(&self, before: Self, r: Result<Vec<Log>>) -> bool {
        &&& self.unchanged(before)
        &&& self.max_size() == before.max_size()
        &&& self.ticks() == before.ticks()
        &&& match r {
            Ok(logs) => !before.file().unreadable() && before.stored() is Some && log_views(logs@)
                == before.stored().unwrap() + before.buffered(),
            Err(e) => if before.file().unreadable() {
                e is DiskError
            } else {
                before.stored() is None && (e is BinaryError || e is SerialError)
            },
        }
    }

    /// An empty buffer is left alone. Otherwise the buffer's records are
    /// written behind what the file holds and the buffer is emptied.
    open spec fn flushed(&self, before: Self, r: Result<()>) -> bool {
        &&& self.max_size() == before.max_size()
        &&& self.ticks() == before.ticks()
        &&& self.flushed_buffer(before, r)
    }

    proof fn lemma_stored_log(&self, before: Self, log: LogView, r: Result<()>) {
        let (pushed, merged) = choose|pushed: Self, merged: Self| #[trigger]
            self.stored_by_way_of(before, log, r, pushed, merged);
        let kept = before.history();
        assert(pushed.history() =~= kept.push(log));
        assert(kept.push(log).drop_last() =~= kept);
        lemma_push_settled(kept, log);
        if before.open() {
            let back = before.fallback().unwrap();
            assert(pushed.fallback().unwrap() =~= back.push(log));
            assert(back.push(log).drop_last() =~= back);
            lemma_push_settled(back, log);
        }
        let ticks = (before.ticks() + 1) % (COMPACT_PERIOD as nat);
        if (ticks + 1) % (COMPACT_PERIOD as nat) == 0 {
            let c = choose|c: Result<()>| #[trigger] merged.compacted_from(pushed, c);
            Self::lemma_compaction_keeps_state(pushed, merged, c);
        }
        if merged.buffered().len() >= before.max_size() {
            Self::lemma_flush_keeps_state(merged, *self, r);
        }
    }

    proof fn lemma_handed_out(&self, before: Self, r: Result<Vec<Log>>) {
    }

    proof fn lemma_flushed(&self, before: Self, r: Result<()>) {
        Self::lemma_flush_keeps_state(before, *self, r);
    }

    /// Stores one more record: puts it in the buffer, counts it, runs
    /// compaction if it is due, and flushes the buffer if it is full.
    fn store_log(&mut self, log: Log) -> (r: Result<()>)
        ensures
            (old(self).ticks() + 2) % (COMPACT_PERIOD as nat) != 0 && old(self).buffered().len()
                + 1 < old(self).max_size() ==> {
                &&& r is Ok
                &&& final(self).buffered() == old(self).buffered().push(log@)
                &&& final(self).file() == old(self).file()
                &&& final(self).same_write(*old(self))
            },
    {
        proof {
            assert(log_views(self.logs_in_mem@.push(log)) =~= old(self).buffered().push(log@));
        }
        self.logs_in_mem.push(log);
        self.compact_counter = (self.compact_counter % COMPACT_PERIOD + 1) % COMPACT_PERIOD;
        self.gave_up = false;
        let ghost pushed = *self;
        self.check_compact();
        let ghost merged = *self;
        let r = if self.logs_in_mem.len() >= self.max_size {
            self.flush()
        } else {
            Ok(())
        };
        proof {
            assert(self.stored_by_way_of(*old(self), log@, r, pushed, merged));
        }
        r
    }

    /// Hands out the records in the file and then a copy of those in the
    /// buffer.
    fn get_all_logs(&mut self) -> (r: Result<Vec<Log>>) {
        let mut logs = match self.read_logs_from_file() {
            Ok(logs) => logs,
            Err(e) => {
                return Err(e);
            },
        };
        let ghost stored = log_views(logs@);
        let mut i: usize = 0;
        while i < self.logs_in_mem.len()
            invariant
                0 <= i <= self.logs_in_mem.len(),
                log_views(logs@) == stored + self.buffered().take(i as int),
            decreases self.logs_in_mem.len() - i,
        {
            let log = self.logs_in_mem[i].clone();
            proof {
                assert(self.buffered().take(i + 1) =~= self.buffered().take(i as int).push(log@));
                assert(log_views(logs@.push(log)) =~= log_views(logs@).push(log@));
            }
            logs.push(log);
            i += 1;
        }
        proof {
            assert(self.buffered().take(i as int) =~= self.buffered());
        }
        Ok(logs)
    }

    /// Appends what is buffered to the file and empties the buffer. An
    /// empty buffer is left alone.
    fn flush(&mut self) -> (r: Result<()>) {
        if self.logs_in_mem.len() == 0 {
            return Ok(());
        }
        self.let_stand();
        match Self::write_logs_to_file(&mut self.file, &self.logs_in_mem, true) {
            Ok(_) => {
                let mut taken: Vec<Log> = Vec::new();
                taken.append(&mut self.logs_in_mem);
                assert(log_views(self.logs_in_mem@) =~= Seq::<LogView>::empty());
                self.restore = taken;
                self.open = true;
                self.retries = 0;
                self.merging = false;
                Ok(())
            },
            Err(e) => Err(e),
        }
    }
}

} // verus!
