//! The log file as the engine sees it.
//!
//! The library never touches a disk. It works on an image of the log file
//! in memory and records every write that it makes to the image, so that
//! the program around it can repeat the writes on the file itself. A write
//! that failed there can be taken back from the image. The image can also
//! be told to fail, as a disk can.

use crate::errors::DiskError;
use crate::errors::KvStoreError;
use crate::errors::Result;
use vstd::prelude::*;

verus! {

/// One write to the log file: the bytes, and whether they go behind what
/// the file holds or in place of it.
#[derive(Debug)]
pub struct FileWrite {
    pub bytes: Vec<u8>,
    pub append: bool,
}

impl View for FileWrite {
    type V = (Seq<u8>, bool);

    open spec fn view(&self) -> (Seq<u8>, bool) {
        (self.bytes@, self.append)
    }
}

/// The writes of a sequence, as bytes and flags.
pub open spec fn write_views(writes: Seq<FileWrite>) -> Seq<(Seq<u8>, bool)> {
    writes.map_values(|w: FileWrite| w@)
}

/// What a file that held `contents` holds after a write.
pub open spec fn after_write(contents: Seq<u8>, write: (Seq<u8>, bool)) -> Seq<u8> {
    if write.1 {
        contents + write.0
    } else {
        write.0
    }
}

/// What a file that held `contents` holds after some writes, in order.
pub open spec fn after_writes(contents: Seq<u8>, writes: Seq<(Seq<u8>, bool)>) -> Seq<u8>
    decreases writes.len(),
{
    if writes.len() == 0 {
        contents
    } else {
        after_write(after_writes(contents, writes.drop_last()), writes.last())
    }
}

/// The image of the log file: what the file held when the recorded writes
/// were last taken, and the writes made since.
pub struct LogFile {
    base: Vec<u8>,
    writes: Vec<FileWrite>,
    refusals: usize,
    unreadable: bool,
}

impl LogFile {
    /// What the file held when the recorded writes were last taken.
    pub closed spec fn base(self) -> Seq<u8> {
        self.base@
    }

    /// The writes made since the recorded writes were last taken.
    pub closed spec fn recorded(self) -> Seq<(Seq<u8>, bool)> {
        write_views(self.writes@)
    }

    /// How many of the next writes fail.
    pub closed spec fn refusals(self) -> nat {
        self.refusals as nat
    }

    /// Whether reads fail.
    pub closed spec fn unreadable(self) -> bool {
        self.unreadable
    }

    /// The bytes in the file.
    pub open spec fn contents(self) -> Seq<u8> {
        after_writes(self.base(), self.recorded())
    }

    /// Whether the file is `before` after a write that it took, be it after
    /// some that it refused.
    pub open spec fn wrote(self, before: LogFile, bytes: Seq<u8>, append: bool) -> bool {
        &&& self.base() == before.base()
        &&& self.recorded() == before.recorded().push((bytes, append))
        &&& self.refusals() == 0
        &&& self.unreadable() == before.unreadable()
    }

    /// Whether the file is `before` after `times` writes that it refused.
    pub open spec fn refused(self, before: LogFile, times: nat) -> bool {
        &&& self.base() == before.base()
        &&& self.recorded() == before.recorded()
        &&& self.refusals() + times == before.refusals()
        &&& self.unreadable() == before.unreadable()
    }

    /// Whether the file is `before` without the last write that it
    /// recorded, or `before` itself where it had recorded none.
    pub open spec fn retracted(self, before: LogFile) -> bool {
        &&& self.base() == before.base()
        &&& self.recorded() == if before.recorded().len() > 0 {
            before.recorded().drop_last()
        } else {
            before.recorded()
        }
        &&& self.refusals() == before.refusals()
        &&& self.unreadable() == before.unreadable()
    }

    /// What the file held before the last write that it recorded.
    pub open spec fn contents_before_last(self) -> Seq<u8> {
        after_writes(self.base(), self.recorded().drop_last())
    }

    /// An empty file that fails nothing.
    pub fn new() -> (f: LogFile)
        ensures
            f.base() == Seq::<u8>::empty(),
            f.recorded() == Seq::<(Seq<u8>, bool)>::empty(),
            f.refusals() == 0,
            !f.unreadable(),
    {
        let f = LogFile { base: Vec::new(), writes: Vec::new(), refusals: 0, unreadable: false };
        assert(f.recorded() =~= Seq::<(Seq<u8>, bool)>::empty());
        f
    }

    /// A file that holds `bytes` and fails nothing.
    pub fn from_bytes(bytes: Vec<u8>) -> (f: LogFile)
        ensures
            f.base() == bytes@,
            f.recorded() == Seq::<(Seq<u8>, bool)>::empty(),
            f.refusals() == 0,
            !f.unreadable(),
    {
        let f = LogFile { base: bytes, writes: Vec::new(), refusals: 0, unreadable: false };
        assert(f.recorded() =~= Seq::<(Seq<u8>, bool)>::empty());
        f
    }

    /// Makes the file fail the next `writes` writes.
    pub fn refuse_writes(&mut self, writes: usize)
        ensures
            final(self).base() == old(self).base(),
            final(self).recorded() == old(self).recorded(),
            final(self).refusals() == writes,
            final(self).unreadable() == old(self).unreadable(),
    {
        self.refusals = writes;
    }

    /// Makes the file fail every read, or none.
    pub fn refuse_reads(&mut self, refuse: bool)
        ensures
            final(self).base() == old(self).base(),
            final(self).recorded() == old(self).recorded(),
            final(self).refusals() == old(self).refusals(),
            final(self).unreadable() == refuse,
    {
        self.unreadable = refuse;
    }

    /// The bytes in the file.
    pub fn bytes(&self) -> (bytes: Vec<u8>)
        ensures
            bytes@ == self.contents(),
    {
        let mut bytes = self.base.clone();
        let mut i: usize = 0;
        while i < self.writes.len()
            invariant
                0 <= i <= self.writes.len(),
                bytes@ == after_writes(self.base(), self.recorded().take(i as int)),
            decreases self.writes.len() - i,
        {
            proof {
                assert(self.recorded().take(i + 1).drop_last() =~= self.recorded().take(i as int));
                assert(self.recorded().take(i + 1).last() == self.writes@[i as int]@);
            }
            if !self.writes[i].append {
                bytes.clear();
            }
            let mut more = self.writes[i].bytes.clone();
            bytes.append(&mut more);
            proof {
                assert(bytes@ =~= after_writes(self.base(), self.recorded().take(i + 1)));
            }
            i += 1;
        }
        proof {
            assert(self.recorded().take(i as int) =~= self.recorded());
        }
        bytes
    }

    /// Reads all the bytes of the file.
    pub fn read(&self) -> (r: Result<Vec<u8>>)
        ensures
            match r {
                Ok(bytes) => !self.unreadable() && bytes@ == self.contents(),
                Err(e) => self.unreadable() && e is DiskError,
            },
    {
        if self.unreadable {
            return Err(KvStoreError::DiskError(DiskError::UnKnown("read refused".to_owned())));
        }
        Ok(self.bytes())
    }

    /// Writes `bytes` behind what the file holds if `append` is set, and in
    /// place of it otherwise, and records the write. A write that is
    /// refused changes nothing but the number of writes still to refuse.
    pub fn write(&mut self, bytes: &Vec<u8>, append: bool) -> (r: Result<()>)
        ensures
            match r {
                Ok(_) => old(self).refusals() == 0 && final(self).wrote(*old(self), bytes@, append),
                Err(e) => old(self).refusals() > 0 && final(self).refused(*old(self), 1)
                    && e is DiskError,
            },
    {
        if self.refusals > 0 {
            self.refusals = self.refusals - 1;
            return Err(KvStoreError::DiskError(DiskError::UnKnown("write refused".to_owned())));
        }
        let write = FileWrite { bytes: bytes.clone(), append };
        proof {
            assert(write_views(self.writes@.push(write)) =~= write_views(self.writes@).push(
                (bytes@, append),
            ));
        }
        self.writes.push(write);
        Ok(())
    }

    /// A copy of the last write that was recorded, if there is one.
    pub fn last_write(&self) -> (w: Option<FileWrite>)
        ensures
            match w {
                Some(w) => self.recorded().len() > 0 && w@ == self.recorded().last(),
                None => self.recorded().len() == 0,
            },
    {
        let n = self.writes.len();
        if n == 0 {
            return None;
        }
        let last = &self.writes[n - 1];
        Some(FileWrite { bytes: last.bytes.clone(), append: last.append })
    }

    /// Takes back the last write that was recorded, if there is one: the
    /// file holds what it held before that write.
    pub fn retract(&mut self)
        ensures
            final(self).retracted(*old(self)),
            old(self).recorded().len() > 0 ==> final(self).contents() == old(
                self,
            ).contents_before_last(),
    {
        let _ = self.writes.pop();
        proof {
            if old(self).writes@.len() > 0 {
                assert(write_views(self.writes@) =~= write_views(old(self).writes@).drop_last());
            }
        }
    }

    /// Whether the file is `before` once its recorded writes have been
    /// taken: it holds the same bytes, and no write is recorded.
    pub open spec fn taken(self, before: LogFile) -> bool {
        &&& self.base() == before.contents()
        &&& self.recorded() == Seq::<(Seq<u8>, bool)>::empty()
        &&& self.refusals() == before.refusals()
        &&& self.unreadable() == before.unreadable()
    }

    /// Hands out the recorded writes, oldest first, and forgets them. The
    /// file holds what it held: a file that held what this one held when
    /// the writes were last taken holds the same after these writes.
    pub fn take_writes(&mut self) -> (writes: Vec<FileWrite>)
        ensures
            write_views(writes@) == old(self).recorded(),
            final(self).taken(*old(self)),
            final(self).contents() == old(self).contents(),
    {
        let mut writes: Vec<FileWrite> = Vec::new();
        writes.append(&mut self.writes);
        let ghost views = write_views(writes@);
        proof {
            assert(writes@ =~= old(self).writes@);
            assert(self.recorded() =~= Seq::<(Seq<u8>, bool)>::empty());
        }
        let mut i: usize = 0;
        while i < writes.len()
            invariant
                0 <= i <= writes.len(),
                views == write_views(writes@),
                self.base() == after_writes(old(self).base(), views.take(i as int)),
                self.recorded() == Seq::<(Seq<u8>, bool)>::empty(),
                self.refusals() == old(self).refusals(),
                self.unreadable() == old(self).unreadable(),
            decreases writes.len() - i,
        {
            proof {
                assert(views.take(i + 1).drop_last() =~= views.take(i as int));
                assert(views.take(i + 1).last() == writes@[i as int]@);
            }
            if !writes[i].append {
                self.base.clear();
            }
            let mut more = writes[i].bytes.clone();
            self.base.append(&mut more);
            proof {
                assert(self.base@ =~= after_writes(old(self).base(), views.take(i + 1)));
            }
            i += 1;
        }
        proof {
            assert(views.take(i as int) =~= views);
        }
        writes
    }
}

/// A write behind a file's contents adds its bytes to them.
pub proof fn lemma_after_append(file: LogFile, after: LogFile, bytes: Seq<u8>)
    requires
        after.wrote(file, bytes, true),
    ensures
        after.contents() == file.contents() + bytes,
{
    assert(after.recorded().drop_last() =~= file.recorded());
}

/// A write in place of a file's contents leaves its bytes alone.
pub proof fn lemma_after_overwrite(file: LogFile, after: LogFile, bytes: Seq<u8>)
    requires
        after.wrote(file, bytes, false),
    ensures
        after.contents() == bytes,
{
    assert(after.recorded().drop_last() =~= file.recorded());
}

} // verus!
