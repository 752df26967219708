//! Records of the log and their encoding.
//!
//! A record is a command and a flag that says whether a later record has
//! superseded it. A live record is written as one frame whose body is the
//! text of the record; a deleted record is written as nothing at all.

use crate::errors::BinaryError;
use crate::errors::KvStoreError;
use crate::errors::Result;
use crate::framing::frame_at;
use crate::framing::framed;
use crate::framing::lemma_frame_at_framed;
use crate::framing::lemma_frame_at_prefix;
use crate::framing::lemma_frame_at_shift;
use crate::framing::lemma_frame_at_bounds;
use crate::framing::write_le32;
use crate::framing::Cursor;
use crate::json::json_body;
use crate::json::json_error;
use crate::json::json_text;
use crate::json::opt_chars;
use crate::json::read_json;
use crate::json::write_json;
use vstd::prelude::*;
use vstd::string::StringSliceAdditionalSpecFns;
use vstd::std_specs::convert::FromSpecImpl;

verus! {

/// An operation on the store.
#[derive(Debug)]
pub enum Command {
    /// Reads the value of a key. It changes nothing.
    Get(String),
    /// Sets the value of a key. Its tag in a body is `Set`.
    Put(String, String),
    /// Erases a key.
    Remove(String),
}

/// One logged operation, and whether a later one has superseded it.
#[derive(Debug)]
pub struct Log {
    pub command: Command,
    pub deleted: bool,
}

/// What a command is, apart from how its strings are held.
pub enum CommandView {
    Get(Seq<char>),
    Put(Seq<char>, Seq<char>),
    Remove(Seq<char>),
}

/// What a record is, apart from how its strings are held.
pub struct LogView {
    pub command: CommandView,
    pub deleted: bool,
}

impl CommandView {
    /// The word that tells the kind of the command in a body.
    pub open spec fn tag(self) -> Seq<char> {
        match self {
            CommandView::Get(_) => "Get"@,
            CommandView::Put(_, _) => "Set"@,
            CommandView::Remove(_) => "Remove"@,
        }
    }

    /// The key that the command names.
    pub open spec fn name(self) -> Seq<char> {
        match self {
            CommandView::Get(k) => k,
            CommandView::Put(k, _) => k,
            CommandView::Remove(k) => k,
        }
    }

    /// The value that the command carries, if it carries one.
    pub open spec fn value(self) -> Option<Seq<char>> {
        match self {
            CommandView::Put(_, v) => Some(v),
            _ => None,
        }
    }

    /// The key whose state the command changes. A `Get` changes none.
    pub open spec fn key(self) -> Option<Seq<char>> {
        match self {
            CommandView::Get(_) => None,
            CommandView::Put(k, _) => Some(k),
            CommandView::Remove(k) => Some(k),
        }
    }
}

/// The command with the given tag, key and value: a `Set` has a value, a
/// `Get` and a `Remove` have none, and no other tag names a command.
pub open spec fn command_of(tag: Seq<char>, key: Seq<char>, value: Option<Seq<char>>) -> Option<
    CommandView,
> {
    if tag == "Get"@ && value is None {
        Some(CommandView::Get(key))
    } else if tag == "Set"@ && value is Some {
        Some(CommandView::Put(key, value.unwrap()))
    } else if tag == "Remove"@ && value is None {
        Some(CommandView::Remove(key))
    } else {
        None
    }
}

/// A command is the command of its own tag, key and value.
pub proof fn lemma_command_of_parts(c: CommandView)
    ensures
        command_of(c.tag(), c.name(), c.value()) == Some(c),
{
    reveal_strlit("Get");
    reveal_strlit("Set");
    reveal_strlit("Remove");
    assert("Get"@[0] != "Set"@[0]);
    assert("Get"@.len() != "Remove"@.len());
    assert("Set"@.len() != "Remove"@.len());
}

/// The record that a body holds, or `None` where the body is not the text
/// of a record.
pub open spec fn body_record(body: Seq<u8>) -> Option<LogView> {
    match json_body(body) {
        Some((tag, key, value, deleted)) => match command_of(tag, key, value) {
            Some(command) => Some(LogView { command, deleted }),
            None => None,
        },
        None => None,
    }
}

/// The record in the frame that starts at `at`, and where the next frame
/// starts. `None` where no whole frame is left or its body is no record.
pub open spec fn decode_one(bytes: Seq<u8>, at: int) -> Option<(LogView, int)>
    recommends
        0 <= at <= bytes.len(),
{
    match frame_at(bytes, at) {
        Some((body, next)) => match body_record(body) {
            Some(record) => Some((record, next)),
            None => None,
        },
        None => None,
    }
}

/// The records in the frames from `at` to the end of `bytes`, in order.
/// `None` where the bytes from `at` on are not a whole number of frames that
/// each hold a record.
pub open spec fn decode_from(bytes: Seq<u8>, at: int) -> Option<Seq<LogView>>
    decreases bytes.len() - at,
{
    if at < 0 || at >= bytes.len() {
        Some(Seq::empty())
    } else {
        match decode_one(bytes, at) {
            Some((record, next)) => if next > at {
                match decode_from(bytes, next) {
                    Some(rest) => Some(seq![record] + rest),
                    None => None,
                }
            } else {
                None
            },
            None => None,
        }
    }
}

/// The records that a sequence of bytes holds, in order.
pub open spec fn decode_all(bytes: Seq<u8>) -> Option<Seq<LogView>> {
    decode_from(bytes, 0)
}

/// The bytes that a record is written as: nothing for a deleted record, and
/// for a live one the frame of its text. `None` where no text can be written
/// for the record, where the text does not read back as the record, or where
/// its length does not fit in four bytes.
pub open spec fn encoding(log: LogView) -> Option<Seq<u8>> {
    if log.deleted {
        Some(Seq::empty())
    } else {
        match json_text(log.command.tag(), log.command.name(), log.command.value(), false) {
            Some(body) => if body_record(body) == Some(log) && body.len() <= u32::MAX {
                Some(framed(body))
            } else {
                None
            },
            None => None,
        }
    }
}

/// Whether the text of a live record reads back as the record and is too
/// long for a frame: longer than four bytes can say.
pub open spec fn too_long(log: LogView) -> bool {
    !log.deleted && match json_text(
        log.command.tag(),
        log.command.name(),
        log.command.value(),
        false,
    ) {
        Some(body) => body_record(body) == Some(log) && body.len() > u32::MAX,
        None => false,
    }
}

/// The records that are not deleted, in order: those that are written.
pub open spec fn live(logs: Seq<LogView>) -> Seq<LogView> {
    logs.filter(|l: LogView| !l.deleted)
}

/// The bytes that a sequence of records is written as: the bytes of each,
/// in order. `None` where one of them cannot be written.
pub open spec fn encoding_all(logs: Seq<LogView>) -> Option<Seq<u8>>
    decreases logs.len(),
{
    if logs.len() == 0 {
        Some(Seq::empty())
    } else {
        match (encoding_all(logs.drop_last()), encoding(logs.last())) {
            (Some(before), Some(last)) => Some(before + last),
            _ => None,
        }
    }
}

/// Decoding the bytes written for a live record gives the record back, flag
/// and command, and ends right behind them.
pub proof fn lemma_round_trip(log: LogView)
    requires
        !log.deleted,
        encoding(log) is Some,
    ensures
        decode_one(encoding(log).unwrap(), 0) == Some((log, encoding(log).unwrap().len() as int)),
        decode_all(encoding(log).unwrap()) == Some(seq![log]),
{
    let body =
        json_text(log.command.tag(), log.command.name(), log.command.value(), false).unwrap();
    let bytes = encoding(log).unwrap();
    lemma_frame_at_framed(Seq::empty(), body, Seq::empty());
    assert(Seq::<u8>::empty() + framed(body) + Seq::<u8>::empty() =~= bytes);
    assert(decode_from(bytes, bytes.len() as int) == Some(Seq::<LogView>::empty()));
    assert(seq![log] + Seq::<LogView>::empty() =~= seq![log]);
}

/// A deleted record is written as no bytes at all, whatever its command.
pub proof fn lemma_deleted_is_empty(log: LogView)
    requires
        log.deleted,
    ensures
        encoding(log) == Some(Seq::<u8>::empty()),
{
}

/// Where a sequence of records can be written, so can each part of it from
/// the start.
pub proof fn lemma_encoding_all_prefix(logs: Seq<LogView>, n: int)
    requires
        0 <= n <= logs.len(),
        encoding_all(logs) is Some,
    ensures
        encoding_all(logs.take(n)) is Some,
    decreases logs.len(),
{
    if n < logs.len() {
        assert(logs.drop_last().take(n) =~= logs.take(n));
        lemma_encoding_all_prefix(logs.drop_last(), n);
    } else {
        assert(logs.take(n) =~= logs);
    }
}

/// The records of the second part of a sequence of bytes are the records of
/// that part alone.
pub proof fn lemma_decode_shift(a: Seq<u8>, b: Seq<u8>, at: int)
    requires
        0 <= at <= b.len(),
    ensures
        decode_from(a + b, a.len() + at) == decode_from(b, at),
    decreases b.len() - at,
{
    if at < b.len() {
        lemma_frame_at_shift(a, b, at);
        if decode_one(b, at) is Some {
            lemma_frame_at_bounds(b, at);
            lemma_decode_shift(a, b, decode_one(b, at).unwrap().1);
        }
    }
}

/// The records of two sequences of bytes, one behind the other, are the
/// records of the first and then the records of the second.
pub proof fn lemma_decode_concat(a: Seq<u8>, b: Seq<u8>, at: int)
    requires
        0 <= at <= a.len(),
        decode_from(a, at) is Some,
    ensures
        decode_from(a + b, at) == match decode_from(b, 0) {
            Some(rest) => Some(decode_from(a, at).unwrap() + rest),
            None => None,
        },
    decreases a.len() - at,
{
    if at == a.len() {
        lemma_decode_shift(a, b, 0);
        if decode_from(b, 0) is Some {
            assert(Seq::<LogView>::empty() + decode_from(b, 0).unwrap()
                =~= decode_from(b, 0).unwrap());
        }
    } else {
        lemma_frame_at_bounds(a, at);
        lemma_frame_at_prefix(a, b, at);
        let (record, next) = decode_one(a, at).unwrap();
        lemma_decode_concat(a, b, next);
        if decode_from(b, 0) is Some {
            let rest = decode_from(b, 0).unwrap();
            assert(seq![record] + (decode_from(a, next).unwrap() + rest) =~= (seq![record]
                + decode_from(a, next).unwrap()) + rest);
        }
    }
}

/// The bytes written for a sequence of records hold its live records, in
/// order.
pub proof fn lemma_encoding_all_decodes(logs: Seq<LogView>)
    requires
        encoding_all(logs) is Some,
    ensures
        decode_all(encoding_all(logs).unwrap()) == Some(live(logs)),
    decreases logs.len(),
{
    reveal(Seq::filter);
    if logs.len() > 0 {
        let init = logs.drop_last();
        let last = logs.last();
        let before = encoding_all(init).unwrap();
        lemma_encoding_all_decodes(init);
        lemma_decode_concat(before, encoding(last).unwrap(), 0);
        if last.deleted {
            assert(before + encoding(last).unwrap() =~= before);
        } else {
            lemma_round_trip(last);
            assert(live(init) + seq![last] =~= live(init).push(last));
        }
    }
}

impl View for Command {
    type V = CommandView;

    open spec fn view(&self) -> CommandView {
        match self {
            Command::Get(k) => CommandView::Get(k@),
            Command::Put(k, v) => CommandView::Put(k@, v@),
            Command::Remove(k) => CommandView::Remove(k@),
        }
    }
}

impl View for Log {
    type V = LogView;

    open spec fn view(&self) -> LogView {
        LogView { command: self.command@, deleted: self.deleted }
    }
}

impl Clone for Command {
    fn clone(&self) -> (c: Command)
        ensures
            c@ == self@,
    {
        match self {
            Command::Get(k) => Command::Get(k.clone()),
            Command::Put(k, v) => Command::Put(k.clone(), v.clone()),
            Command::Remove(k) => Command::Remove(k.clone()),
        }
    }
}

impl Clone for Log {
    fn clone(&self) -> (l: Log)
        ensures
            l@ == self@,
    {
        Log { command: self.command.clone(), deleted: self.deleted }
    }
}

impl From<Command> for Log {
    fn from(cmd: Command) -> (l: Log) {
        Log { command: cmd, deleted: false }
    }
}

impl core::str::FromStr for Log {
    type Err = KvStoreError;

    /// Reads a record from the text of a body, as `deserialize` does.
    fn from_str(s: &str) -> (r: Result<Log>)
        ensures
            match r {
                Ok(log) => body_record(s.spec_bytes()) == Some(log@),
                Err(e) => body_record(s.spec_bytes()) is None && e is SerialError,
            },
    {
        Log::deserialize(s.as_bytes())
    }
}

impl FromSpecImpl<Command> for Log {
    open spec fn obeys_from_spec() -> bool {
        true
    }

    open spec fn from_spec(cmd: Command) -> Log {
        Log { command: cmd, deleted: false }
    }
}

impl Command {
    /// Whether two commands are of one kind and hold the same strings.
    pub fn same(&self, other: &Command) -> (b: bool)
        ensures
            b == (self@ == other@),
    {
        match (self, other) {
            (Command::Get(k), Command::Get(l)) => *k == *l,
            (Command::Put(k, v), Command::Put(l, w)) => *k == *l && *v == *w,
            (Command::Remove(k), Command::Remove(l)) => *k == *l,
            _ => false,
        }
    }

    /// The key whose state the command changes. A `Get` changes none.
    pub fn key(&self) -> (k: Option<&String>)
        ensures
            match k {
                Some(k) => self@.key() == Some(k@),
                None => self@.key() is None,
            },
    {
        match self {
            Command::Get(_) => None,
            Command::Put(k, _) => Some(k),
            Command::Remove(k) => Some(k),
        }
    }

    /// The command with the given tag, key and value, if there is one.
    pub fn from_parts(tag: String, key: String, value: Option<String>) -> (c: Option<Command>)
        ensures
            match c {
                Some(c) => command_of(tag@, key@, opt_chars(value)) == Some(c@),
                None => command_of(tag@, key@, opt_chars(value)) is None,
            },
    {
        let get = "Get".to_owned();
        let set = "Set".to_owned();
        let remove = "Remove".to_owned();
        match value {
            None => if tag == get {
                Some(Command::Get(key))
            } else if tag == remove {
                Some(Command::Remove(key))
            } else {
                None
            },
            Some(v) => if tag == set {
                Some(Command::Put(key, v))
            } else {
                None
            },
        }
    }
}

impl Log {
    /// Whether two records hold the same command and the same flag.
    pub fn same(&self, other: &Log) -> (b: bool)
        ensures
            b == (self@ == other@),
    {
        self.deleted == other.deleted && self.command.same(&other.command)
    }

    /// Reads a record from the text of a body. The whole text must be one
    /// record.
    pub fn deserialize(buf: &[u8]) -> (r: Result<Log>)
        ensures
            match r {
                Ok(log) => body_record(buf@) == Some(log@),
                Err(e) => body_record(buf@) is None && e is SerialError,
            },
    {
        match read_json(buf) {
            Ok(((tag, key, value), deleted)) => match Command::from_parts(tag, key, value) {
                Some(command) => Ok(Log { command, deleted }),
                None => Err(KvStoreError::SerialError(json_error("no such command"))),
            },
            Err(e) => Err(KvStoreError::SerialError(e)),
        }
    }

    /// Frames the text of this record, given what the text was read back as.
    /// The frame is made exactly where the text read back as this record and
    /// its length fits in four bytes.
    pub fn frame(&self, body: Vec<u8>, read_back: Result<Log>) -> (r: Result<Vec<u8>>)
        ensures
            match r {
                Ok(bytes) => {
                    &&& read_back is Ok
                    &&& read_back.unwrap()@ == self@
                    &&& body@.len() <= u32::MAX
                    &&& bytes@ == framed(body@)
                },
                Err(e) => match read_back {
                    Ok(log) => if log@ == self@ {
                        body@.len() > u32::MAX && e is BinaryError
                    } else {
                        e is SerialError
                    },
                    Err(cause) => e == cause,
                },
            },
    {
        match read_back {
            Ok(log) => {
                if !self.same(&log) {
                    return Err(KvStoreError::SerialError(json_error("record does not read back")));
                }
                if body.len() > 0xffff_ffff {
                    return Err(
                        KvStoreError::BinaryError(
                            BinaryError::ParseLogSize("record too long".to_owned()),
                        ),
                    );
                }
                let ghost text = body@;
                let mut bytes: Vec<u8> = vec![0u8, 0u8, 0u8, 0u8];
                write_le32(&mut bytes, body.len() as u32);
                let mut rest = body;
                bytes.append(&mut rest);
                assert(bytes@ =~= framed(text));
                Ok(bytes)
            },
            Err(e) => Err(e),
        }
    }

    /// Encodes the record: nothing for a deleted record; for a live one its
    /// text, framed, once the text has been read back as the record.
    pub fn serialize(&self) -> (r: Result<Vec<u8>>)
        ensures
            match r {
                Ok(bytes) => encoding(self@) == Some(bytes@),
                Err(e) => encoding(self@) is None && if too_long(self@) {
                    e is BinaryError
                } else {
                    e is SerialError
                },
            },
            self.deleted ==> r is Ok && r.unwrap()@.len() == 0,
            !self.deleted && r is Ok ==> decode_one(r.unwrap()@, 0) == Some(
                (self@, r.unwrap()@.len() as int),
            ),
    {
        if self.deleted {
            return Ok(Vec::new());
        }
        let written = match &self.command {
            Command::Get(k) => write_json("Get", k.as_str(), None, false),
            Command::Put(k, v) => write_json("Set", k.as_str(), Some(v), false),
            Command::Remove(k) => write_json("Remove", k.as_str(), None, false),
        };
        match written {
            Ok(body) => {
                let read_back = Log::deserialize(body.as_slice());
                let r = self.frame(body, read_back);
                proof {
                    if r is Ok {
                        lemma_round_trip(self@);
                    }
                }
                r
            },
            Err(e) => Err(KvStoreError::SerialError(e)),
        }
    }

    /// Encodes a sequence of records, one behind the other.
    pub fn encode_all(logs: &Vec<Log>) -> (r: Result<Vec<u8>>)
        ensures
            match r {
                Ok(bytes) => encoding_all(log_views(logs@)) == Some(bytes@),
                Err(e) => encoding_all(log_views(logs@)) is None && exists|i: int|
                    {
                        &&& 0 <= i < logs@.len()
                        &&& encoding_all(log_views(logs@).take(i)) is Some
                        &&& encoding(#[trigger] log_views(logs@)[i]) is None
                        &&& if too_long(log_views(logs@)[i]) {
                            e is BinaryError
                        } else {
                            e is SerialError
                        }
                    },
            },
    {
        let mut bytes: Vec<u8> = Vec::new();
        let mut i: usize = 0;
        while i < logs.len()
            invariant
                0 <= i <= logs.len(),
                encoding_all(log_views(logs@).take(i as int)) == Some(bytes@),
            decreases logs.len() - i,
        {
            let ghost views = log_views(logs@);
            proof {
                assert(views.take(i + 1).drop_last() =~= views.take(i as int));
                assert(views.take(i + 1).last() == logs@[i as int]@);
            }
            match logs[i].serialize() {
                Ok(mut one) => {
                    bytes.append(&mut one);
                },
                Err(e) => {
                    proof {
                        if encoding_all(views) is Some {
                            lemma_encoding_all_prefix(views, i + 1);
                        }
                        assert(encoding(views[i as int]) is None);
                    }
                    return Err(e);
                },
            }
            i += 1;
        }
        proof {
            assert(log_views(logs@).take(i as int) =~= log_views(logs@));
        }
        Ok(bytes)
    }

    /// Reads the record in the frame at the cursor and moves behind it.
    /// Where no whole frame is left, or its body is no record, the cursor
    /// stays.
    pub fn read_from_cursor(cursor: &mut Cursor) -> (r: Result<Log>)
        ensures
            final(cursor).bytes() == old(cursor).bytes(),
            match r {
                Ok(log) => decode_one(old(cursor).bytes(), old(cursor).at()) == Some(
                    (log@, final(cursor).at()),
                ),
                Err(e) => {
                    &&& decode_one(old(cursor).bytes(), old(cursor).at()) is None
                    &&& final(cursor).at() == old(cursor).at()
                    &&& if frame_at(old(cursor).bytes(), old(cursor).at()) is None {
                        e is BinaryError
                    } else {
                        e is SerialError
                    }
                },
            },
    {
        let start = cursor.position();
        match cursor.read_frame() {
            Some(body) => {
                let r = Log::deserialize(body.as_slice());
                if r.is_err() {
                    cursor.set_position(start);
                }
                r
            },
            None => Err(
                KvStoreError::BinaryError(
                    BinaryError::ParseLogSize("incomplete record".to_owned()),
                ),
            ),
        }
    }

    /// Reads every record that `bytes` holds, in order. The bytes must be a
    /// whole number of frames that each hold a record.
    pub fn decode_all(bytes: Vec<u8>) -> (r: Result<Vec<Log>>)
        ensures
            match r {
                Ok(logs) => decode_all(bytes@) == Some(log_views(logs@)),
                Err(e) => decode_all(bytes@) is None && (e is BinaryError || e is SerialError),
            },
    {
        let ghost all = bytes@;
        let mut cursor = Cursor::new(bytes);
        let mut logs: Vec<Log> = Vec::new();
        while cursor.remaining() > 0
            invariant
                all == bytes@,
                cursor.bytes() == all,
                0 <= cursor.at() <= all.len(),
                decode_all(all) == match decode_from(all, cursor.at()) {
                    Some(rest) => Some(log_views(logs@) + rest),
                    None => None,
                },
            decreases all.len() - cursor.at(),
        {
            let ghost before = cursor.at();
            let ghost seen = log_views(logs@);
            match Log::read_from_cursor(&mut cursor) {
                Ok(log) => {
                    proof {
                        lemma_frame_at_bounds(all, before);
                        let rest = decode_from(all, cursor.at());
                        if rest is Some {
                            assert(seen + (seq![log@] + rest.unwrap()) =~= seen.push(log@)
                                + rest.unwrap());
                        }
                        assert(log_views(logs@.push(log)) =~= seen.push(log@));
                    }
                    logs.push(log);
                },
                Err(e) => {
                    return Err(e);
                },
            }
        }
        proof {
            assert(log_views(logs@) + Seq::<LogView>::empty() =~= log_views(logs@));
        }
        Ok(logs)
    }
}

/// The records of a sequence, apart from how their strings are held.
pub open spec fn log_views(logs: Seq<Log>) -> Seq<LogView> {
    logs.map_values(|l: Log| l@)
}

} // verus!
