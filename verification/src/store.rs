//! The store: an index from keys to values in memory, and behind it what
//! keeps the records.

use crate::errors::KeyError;
use crate::errors::KvStoreError;
use crate::errors::Result;
use crate::file::write_views;
use crate::file::FileWrite;
use crate::history::replay;
use crate::history::replay_onto;
use crate::json::opt_chars;
use crate::persistent::Disk;
use crate::persistent::Persistenter;
use crate::serial::log_views;
use crate::serial::Command;
use crate::serial::CommandView;
use crate::serial::Log;
use crate::serial::LogView;
use vstd::hash_map::StringHashMap;
use vstd::prelude::*;

verus! {

/// A key-value store. Reads are answered from the index; every change goes
/// to the index first and to the persistenter after that.
pub struct KvStore<P: Persistenter> {
    map: StringHashMap<String>,
    persistent: P,
}

/// The live record of a command.
pub open spec fn live_record(command: CommandView) -> LogView {
    LogView { command, deleted: false }
}

impl<P: Persistenter> KvStore<P> {
    /// The value of every key that has one.
    pub closed spec fn index(self) -> Map<Seq<char>, Seq<char>> {
        self.map@.map_values(|v: String| v@)
    }

    /// What keeps the records.
    pub closed spec fn persistent(self) -> P {
        self.persistent
    }

    /// Whether the index is the state that the kept records stand for, and
    /// these are sound.
    pub open spec fn inv(self) -> bool {
        self.persistent().sound() && self.index() == replay(self.persistent().history())
    }

    /// Whether the store is what `open` makes of `persistent`: the records
    /// were handed out, and the index is the state after them.
    pub open spec fn opened(self, persistent: P) -> bool {
        exists|logs: Vec<Log>| #[trigger]
            self.persistent().handed_out(persistent, Ok(logs)) && self.index() == replay(
                log_views(logs@),
            )
    }

    /// Applies the commands of `logs` to the index, in order. Whether a
    /// record is deleted makes no difference.
    pub fn replace_logs(&mut self, logs: Vec<Log>)
        ensures
            final(self).index() == replay_onto(old(self).index(), log_views(logs@)),
            final(self).persistent() == old(self).persistent(),
    {
        let ghost views = log_views(logs@);
        let mut i: usize = 0;
        while i < logs.len()
            invariant
                0 <= i <= logs.len(),
                views == log_views(logs@),
                self.index() == replay_onto(old(self).index(), views.take(i as int)),
                self.persistent() == old(self).persistent(),
            decreases logs.len() - i,
        {
            proof {
                assert(views.take(i + 1).drop_last() =~= views.take(i as int));
                assert(views.take(i + 1).last() == logs@[i as int]@);
            }
            let ghost index = self.index();
            match &logs[i].command {
                Command::Put(key, value) => {
                    self.map.insert(key.clone(), value.clone());
                    assert(self.index() =~= index.insert(key@, value@));
                },
                Command::Remove(key) => {
                    self.map.remove(key.as_str());
                    assert(self.index() =~= index.remove(key@));
                },
                Command::Get(_) => {},
            }
            i += 1;
        }
        proof {
            assert(views.take(i as int) =~= views);
        }
    }

    /// Sets the value of a key. The index holds the value and the record is
    /// kept, whatever is returned: an error says that the record could not
    /// be written out yet.
    pub fn set(&mut self, key: String, value: String) -> (r: Result<()>)
        ensures
            final(self).index() == old(self).index().insert(key@, value@),
            final(self).persistent().stored_log(
                old(self).persistent(),
                live_record(CommandView::Put(key@, value@)),
                r,
            ),
            old(self).inv() ==> final(self).inv(),
    {
        let ghost index = self.index();
        self.map.insert(key.clone(), value.clone());
        assert(self.index() =~= index.insert(key@, value@));
        let r = self.persistent.store_log(Log::from(Command::Put(key, value)));
        proof {
            if old(self).inv() {
                self.persistent.lemma_stored_log(
                    old(self).persistent(),
                    live_record(CommandView::Put(key@, value@)),
                    r,
                );
            }
        }
        r
    }

    /// Removes a key. A key that is not in the store is reported, and then
    /// nothing changes and no record is stored.
    pub fn remove(&mut self, key: String) -> (r: Result<()>)
        ensures
            !old(self).index().contains_key(key@) ==> {
                &&& *final(self) == *old(self)
                &&& r matches Err(KvStoreError::KeyError(KeyError::KeyNotFound(k)))
                &&& k@ == key@
            },
            old(self).index().contains_key(key@) ==> {
                &&& final(self).index() == old(self).index().remove(key@)
                &&& final(self).persistent().stored_log(
                    old(self).persistent(),
                    live_record(CommandView::Remove(key@)),
                    r,
                )
            },
            old(self).inv() ==> final(self).inv(),
    {
        if !self.map.contains_key(key.as_str()) {
            return Err(KvStoreError::KeyError(KeyError::KeyNotFound(key)));
        }
        let ghost index = self.index();
        self.map.remove(key.as_str());
        assert(self.index() =~= index.remove(key@));
        let r = self.persistent.store_log(Log::from(Command::Remove(key)));
        proof {
            if old(self).inv() {
                self.persistent.lemma_stored_log(
                    old(self).persistent(),
                    live_record(CommandView::Remove(key@)),
                    r,
                );
            }
        }
        r
    }

    /// The value of a key, if it has one. Nothing but the index is looked
    /// at, and the lookup never fails.
    pub fn get(&self, key: String) -> (r: Result<Option<String>>)
        ensures
            r is Ok,
            opt_chars(r.unwrap()) == self.index().get(key@),
    {
        match self.map.get(key.as_str()) {
            Some(value) => Ok(Some(value.clone())),
            None => Ok(None),
        }
    }

    /// Opens a store over `persistent`: has all its records handed out and
    /// replays them into an empty index. Whether a record is deleted makes
    /// no difference to the replay.
    pub fn open(persistent: P) -> (r: Result<KvStore<P>>)
        ensures
            match r {
                Ok(store) => store.opened(persistent) && store.index() == replay(
                    persistent.history(),
                ) && (persistent.sound() ==> store.inv()),
                Err(e) => exists|after: P| #[trigger] after.handed_out(persistent, Err(e)),
            },
    {
        let mut store = KvStore { map: StringHashMap::new(), persistent };
        assert(store.index() =~= Map::<Seq<char>, Seq<char>>::empty());
        match store.persistent.get_all_logs() {
            Ok(logs) => {
                proof {
                    store.persistent.lemma_handed_out(persistent, Ok(logs));
                }
                store.replace_logs(logs);
                Ok(store)
            },
            Err(e) => Err(e),
        }
    }

    /// Closes the store: flushes the persistenter and hands it back, with
    /// what the flush returned.
    pub fn close(self) -> (out: (P, Result<()>))
        ensures
            out.0.flushed(self.persistent(), out.1),
    {
        let mut persistent = self.persistent;
        let r = persistent.flush();
        (persistent, r)
    }

    /// A store that is closed and then opened over what it kept holds the
    /// index that it held before.
    pub proof fn lemma_reopen(before: Self, kept: P, closing: Result<()>, after: Self)
        requires
            before.inv(),
            kept.flushed(before.persistent(), closing),
            after.opened(kept),
        ensures
            after.index() == before.index(),
            after.inv(),
    {
        kept.lemma_flushed(before.persistent(), closing);
        let logs = choose|logs: Vec<Log>| #[trigger]
            after.persistent().handed_out(kept, Ok(logs)) && after.index() == replay(
                log_views(logs@),
            );
        after.persistent().lemma_handed_out(kept, Ok(logs));
    }
}

impl KvStore<Disk> {
    /// The write that is open, if one is: the program around the store
    /// repeats it on the file on disk and says with `written` how it went.
    pub fn open_write(&self) -> (w: Option<FileWrite>)
        ensures
            match w {
                Some(w) => self.persistent().open() && self.persistent().file().recorded().len()
                    > 0 && w@ == self.persistent().file().recorded().last(),
                None => !self.persistent().open() || self.persistent().file().recorded().len()
                    == 0,
            },
    {
        self.persistent.open_write()
    }

    /// Takes the answer for the open write: whether it went well when it
    /// was repeated on the file on disk. A write that failed for good is
    /// taken back, and no record is lost: the store holds what it held.
    pub fn written(&mut self, ok: bool)
        ensures
            final(self).persistent().answered(old(self).persistent(), ok),
            final(self).index() == old(self).index(),
            old(self).inv() ==> final(self).inv(),
    {
        self.persistent.written(ok);
        proof {
            if old(self).inv() {
                Disk::lemma_answer_keeps_state(old(self).persistent(), self.persistent(), ok);
            }
        }
    }

    /// Whether the last compaction gave up and left the file as it was.
    pub fn gave_up(&self) -> (b: bool)
        ensures
            b == self.persistent().given_up(),
    {
        self.persistent.gave_up()
    }

    /// Hands out the writes that were made to the file and not handed out
    /// before, oldest first, for the caller to repeat on the file on disk.
    /// The store holds what it held.
    pub fn take_writes(&mut self) -> (writes: Vec<FileWrite>)
        ensures
            write_views(writes@) == old(self).persistent().file().recorded(),
            final(self).persistent().file().recorded() == Seq::<(Seq<u8>, bool)>::empty(),
            final(self).persistent().file().contents() == old(self).persistent().file().contents(),
            final(self).persistent().history() == old(self).persistent().history(),
            final(self).index() == old(self).index(),
            old(self).inv() ==> final(self).inv(),
    {
        self.persistent.take_writes()
    }

    /// A store over a file that is closed without failure, and then opened
    /// over a new engine for the same file, holds the index that it held
    /// before.
    pub proof fn lemma_reopen_file(before: Self, kept: Disk, fresh: Disk, after: Self)
        requires
            before.inv(),
            kept.flushed(before.persistent(), Ok(())),
            fresh.buffered().len() == 0,
            !fresh.open(),
            fresh.file().contents() == kept.file().contents(),
            after.opened(fresh),
        ensures
            after.index() == before.index(),
            after.inv(),
    {
        kept.lemma_flushed(before.persistent(), Ok(()));
        let logs = choose|logs: Vec<Log>| #[trigger]
            after.persistent().handed_out(fresh, Ok(logs)) && after.index() == replay(
                log_views(logs@),
            );
        after.persistent().lemma_handed_out(fresh, Ok(logs));
        assert(kept.buffered() =~= fresh.buffered());
    }
}

} // verus!
