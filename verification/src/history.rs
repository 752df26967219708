//! What a history of records stands for.
//!
//! A history is a sequence of records in the order in which they were
//! logged. Replaying it gives the state of the store: for every key, what
//! the last record that changes the key left there. Compaction marks every
//! record that a later record for the same key has superseded, and only live
//! records are ever written, so that a log that was compacted holds one
//! record for each key at most and still stands for the same state.

use crate::serial::live;
use crate::serial::CommandView;
use crate::serial::LogView;
use vstd::prelude::*;

verus! {

/// The state after one command: a `Put` sets the value of its key, a
/// `Remove` erases its key if it is there, a `Get` changes nothing.
pub open spec fn apply(index: Map<Seq<char>, Seq<char>>, command: CommandView) -> Map<
    Seq<char>,
    Seq<char>,
> {
    match command {
        CommandView::Get(_) => index,
        CommandView::Put(k, v) => index.insert(k, v),
        CommandView::Remove(k) => index.remove(k),
    }
}

/// The state after the commands of `logs`, in order, starting from `index`.
/// Whether a record is deleted makes no difference to it.
pub open spec fn replay_onto(index: Map<Seq<char>, Seq<char>>, logs: Seq<LogView>) -> Map<
    Seq<char>,
    Seq<char>,
>
    decreases logs.len(),
{
    if logs.len() == 0 {
        index
    } else {
        apply(replay_onto(index, logs.drop_last()), logs.last().command)
    }
}

/// The state that a history stands for.
pub open spec fn replay(logs: Seq<LogView>) -> Map<Seq<char>, Seq<char>> {
    replay_onto(Map::empty(), logs)
}

/// The key whose state the record at `i` changes.
pub open spec fn key_at(logs: Seq<LogView>, i: int) -> Option<Seq<char>> {
    logs[i].command.key()
}

/// Whether a later record changes the key that the record at `i` changes.
pub open spec fn superseded(logs: Seq<LogView>, i: int) -> bool {
    key_at(logs, i) is Some && exists|j: int|
        i < j < logs.len() && #[trigger] key_at(logs, j) == key_at(logs, i)
}

/// The history after compaction: the same commands, and deleted is every
/// record that was deleted before or that a later record has superseded.
pub open spec fn compacted(logs: Seq<LogView>) -> Seq<LogView> {
    Seq::new(
        logs.len(),
        |i: int|
            LogView { command: logs[i].command, deleted: logs[i].deleted || superseded(logs, i) },
    )
}

/// Whether nothing is lost when the deleted records are dropped: every
/// deleted record changes no key, or a later record has superseded it.
pub open spec fn settled(logs: Seq<LogView>) -> bool {
    forall|i: int|
        0 <= i < logs.len() && (#[trigger] logs[i]).deleted ==> key_at(logs, i) is None
            || superseded(logs, i)
}

/// Whether no two records change the same key.
pub open spec fn one_per_key(logs: Seq<LogView>) -> bool {
    forall|i: int, j: int|
        0 <= i < j < logs.len() && key_at(logs, i) is Some ==> #[trigger] key_at(logs, i)
            != #[trigger] key_at(logs, j)
}

/// Where the last record that changes `key` stands, or -1 if none does.
pub open spec fn last_index(logs: Seq<LogView>, key: Seq<char>) -> int
    decreases logs.len(),
{
    if logs.len() == 0 {
        -1
    } else if logs.last().command.key() == Some(key) {
        logs.len() - 1
    } else {
        last_index(logs.drop_last(), key)
    }
}

/// The last command that changes `key`, if there is one.
pub open spec fn last_write(logs: Seq<LogView>, key: Seq<char>) -> Option<CommandView> {
    if last_index(logs, key) < 0 {
        None
    } else {
        Some(logs[last_index(logs, key)].command)
    }
}

/// `last_index` is the place of a record that changes the key, and no
/// record behind it changes the key.
pub proof fn lemma_last_index(logs: Seq<LogView>, key: Seq<char>)
    ensures
        -1 <= last_index(logs, key) < logs.len(),
        last_index(logs, key) >= 0 ==> key_at(logs, last_index(logs, key)) == Some(key),
        forall|j: int|
            last_index(logs, key) < j < logs.len() ==> #[trigger] key_at(logs, j) != Some(key),
    decreases logs.len(),
{
    if logs.len() > 0 && logs.last().command.key() != Some(key) {
        let init = logs.drop_last();
        lemma_last_index(init, key);
        assert forall|j: int| last_index(logs, key) < j < logs.len() implies #[trigger] key_at(
            logs,
            j,
        ) != Some(key) by {
            if j < init.len() {
                assert(key_at(init, j) == key_at(logs, j));
            }
        }
        if last_index(logs, key) >= 0 {
            assert(key_at(init, last_index(init, key)) == key_at(logs, last_index(logs, key)));
        }
    }
}

/// What replaying leaves under a key is what the last command that changes
/// the key leaves there, or what was there before if no command does.
pub proof fn lemma_replay_last_write(
    index: Map<Seq<char>, Seq<char>>,
    logs: Seq<LogView>,
    key: Seq<char>,
)
    ensures
        replay_onto(index, logs).get(key) == match last_write(logs, key) {
            Some(command) => command.value(),
            None => index.get(key),
        },
    decreases logs.len(),
{
    if logs.len() > 0 {
        let init = logs.drop_last();
        lemma_replay_last_write(index, init, key);
        lemma_last_index(init, key);
        if logs.last().command.key() != Some(key) && last_index(init, key) >= 0 {
            assert(init[last_index(init, key)] == logs[last_index(logs, key)]);
        }
    }
}

/// Two histories stand for the same state if the last command that changes
/// a key is the same in both, for every key.
pub proof fn lemma_same_last_writes(
    index: Map<Seq<char>, Seq<char>>,
    a: Seq<LogView>,
    b: Seq<LogView>,
)
    requires
        forall|key: Seq<char>| last_write(a, key) == last_write(b, key),
    ensures
        replay_onto(index, a) == replay_onto(index, b),
{
    let x = replay_onto(index, a);
    let y = replay_onto(index, b);
    assert forall|key: Seq<char>| x.get(key) == y.get(key) by {
        lemma_replay_last_write(index, a, key);
        lemma_replay_last_write(index, b, key);
    }
    assert forall|key: Seq<char>| x.contains_key(key) == y.contains_key(key) by {
        assert(x.get(key) == y.get(key));
    }
    assert forall|key: Seq<char>| x.contains_key(key) implies x[key] == y[key] by {
        assert(x.get(key) == y.get(key));
    }
    assert(x =~= y);
}

/// The last command that changes a key depends on the commands alone.
pub proof fn lemma_last_write_of_commands(a: Seq<LogView>, b: Seq<LogView>, key: Seq<char>)
    requires
        a.len() == b.len(),
        forall|i: int| 0 <= i < a.len() ==> a[i].command == b[i].command,
    ensures
        last_index(a, key) == last_index(b, key),
        last_write(a, key) == last_write(b, key),
    decreases a.len(),
{
    if a.len() > 0 {
        lemma_last_write_of_commands(a.drop_last(), b.drop_last(), key);
        lemma_last_index(a, key);
    }
}

/// Dropping the deleted records of the later part of a history leaves the
/// last command that changes `key` as it was, if every deleted record of
/// that part changes no key, is superseded, or changes a key in `covered`,
/// where `covered` does not hold `key`.
proof fn lemma_drop_deleted_last_write(
    a: Seq<LogView>,
    b: Seq<LogView>,
    covered: Set<Seq<char>>,
    key: Seq<char>,
)
    requires
        forall|i: int|
            a.len() <= i < a.len() + b.len() && (#[trigger] (a + b)[i]).deleted ==> {
                ||| key_at(a + b, i) is None
                ||| superseded(a + b, i)
                ||| covered.contains(key_at(a + b, i).unwrap())
            },
        !covered.contains(key),
    ensures
        last_write(a + live(b), key) == last_write(a + b, key),
    decreases b.len(),
{
    reveal(Seq::filter);
    if b.len() == 0 {
        assert(a + live(b) =~= a + b);
    } else {
        let last = b.last();
        let init = b.drop_last();
        let all = a + b;
        let n = all.len() - 1;
        let wider = match last.command.key() {
            Some(k) => covered.insert(k),
            None => covered,
        };
        assert(all.drop_last() =~= a + init);
        assert(all[n] == last);
        assert forall|i: int|
            a.len() <= i < a.len() + init.len() && (#[trigger] (a + init)[i]).deleted implies {
            ||| key_at(a + init, i) is None
            ||| superseded(a + init, i)
            ||| wider.contains(key_at(a + init, i).unwrap())
        } by {
            assert(all[i] == (a + init)[i]);
            assert(key_at(all, i) == key_at(a + init, i));
            if superseded(all, i) {
                let j = choose|j: int|
                    i < j < all.len() && #[trigger] key_at(all, j) == key_at(all, i);
                if j < n {
                    assert(key_at(a + init, j) == key_at(all, j));
                }
            }
        }
        if last.deleted {
            assert(live(b) == live(init));
            assert(key_at(all, n) == last.command.key());
            assert(!superseded(all, n));
            assert(last.command.key() != Some(key));
            lemma_drop_deleted_last_write(a, init, wider, key);
            lemma_last_index(a + init, key);
            if last_index(a + init, key) >= 0 {
                assert((a + init)[last_index(a + init, key)] == all[last_index(all, key)]);
            }
        } else {
            assert(live(b) == live(init).push(last));
            let kept = a + live(b);
            assert(kept.drop_last() =~= a + live(init));
            assert(kept.last() == last);
            if last.command.key() != Some(key) {
                lemma_drop_deleted_last_write(a, init, wider, key);
                lemma_last_index(a + init, key);
                lemma_last_index(a + live(init), key);
                if last_index(a + init, key) >= 0 {
                    assert((a + init)[last_index(a + init, key)] == all[last_index(all, key)]);
                }
                if last_index(a + live(init), key) >= 0 {
                    assert((a + live(init))[last_index(a + live(init), key)] == kept[last_index(
                        kept,
                        key,
                    )]);
                }
            }
        }
    }
}

/// Dropping the deleted records of the later part of a settled history
/// leaves a settled history that stands for the same state.
pub proof fn lemma_drop_deleted(index: Map<Seq<char>, Seq<char>>, a: Seq<LogView>, b: Seq<LogView>)
    requires
        settled(a + b),
    ensures
        settled(a + live(b)),
        replay_onto(index, a + live(b)) == replay_onto(index, a + b),
{
    let all = a + b;
    let kept = a + live(b);
    assert forall|key: Seq<char>| last_write(kept, key) == last_write(all, key) by {
        lemma_drop_deleted_last_write(a, b, Set::empty(), key);
    }
    lemma_same_last_writes(index, kept, all);
    assert forall|i: int| 0 <= i < kept.len() && (#[trigger] kept[i]).deleted implies key_at(
        kept,
        i,
    ) is None || superseded(kept, i) by {
        if i >= a.len() {
            b.lemma_filter_pred(|l: LogView| !l.deleted, i - a.len());
            assert(kept[i] == live(b)[i - a.len()]);
        } else if key_at(kept, i) is Some {
            let key = key_at(kept, i).unwrap();
            assert(all[i] == kept[i]);
            assert(key_at(all, i) == Some(key));
            assert(superseded(all, i));
            let j = choose|j: int| i < j < all.len() && #[trigger] key_at(all, j) == key_at(all, i);
            lemma_last_index(all, key);
            let r = last_index(all, key);
            assert(r >= j);
            if r < a.len() {
                assert(key_at(kept, r) == key_at(all, r));
            } else {
                let t = r - a.len();
                assert(all[r] == b[t]);
                if b[t].deleted {
                    assert(superseded(all, r));
                    let later = choose|later: int|
                        r < later < all.len() && #[trigger] key_at(all, later) == key_at(all, r);
                    assert(false);
                }
                b.lemma_filter_contains(|l: LogView| !l.deleted, t);
                assert(live(b).contains(b[t]));
                let u = choose|u: int| 0 <= u < live(b).len() && live(b)[u] == b[t];
                assert(kept[a.len() + u] == b[t]);
                assert(key_at(kept, a.len() + u) == Some(key));
            }
        }
    }
}

/// Compaction leaves a settled history settled, and the state that it
/// stands for as it was.
pub proof fn lemma_compacted_settled(index: Map<Seq<char>, Seq<char>>, logs: Seq<LogView>)
    requires
        settled(logs),
    ensures
        settled(compacted(logs)),
        replay_onto(index, compacted(logs)) == replay_onto(index, logs),
{
    let marked = compacted(logs);
    assert forall|i: int| 0 <= i < marked.len() implies key_at(marked, i) == key_at(logs, i) by {}
    assert forall|i: int| 0 <= i < marked.len() && (#[trigger] marked[i]).deleted implies key_at(
        marked,
        i,
    ) is None || superseded(marked, i) by {
        if key_at(marked, i) is Some {
            assert(logs[i].deleted || superseded(logs, i));
            assert(superseded(logs, i));
            let j = choose|j: int|
                i < j < logs.len() && #[trigger] key_at(logs, j) == key_at(logs, i);
            assert(key_at(marked, j) == key_at(marked, i));
        }
    }
    assert forall|key: Seq<char>| last_write(marked, key) == last_write(logs, key) by {
        lemma_last_write_of_commands(marked, logs, key);
    }
    lemma_same_last_writes(index, marked, logs);
}

/// A history whose later part alone was compacted, together with its first
/// part, is settled if the history was, and stands for the same state.
pub proof fn lemma_partly_compacted(
    index: Map<Seq<char>, Seq<char>>,
    a: Seq<LogView>,
    b: Seq<LogView>,
)
    requires
        settled(a + b),
    ensures
        settled(a + compacted(a + b).skip(a.len() as int)),
        replay_onto(index, a + compacted(a + b).skip(a.len() as int)) == replay_onto(index, a + b),
{
    let all = a + b;
    let part = a + compacted(all).skip(a.len() as int);
    assert(part.len() == all.len());
    assert forall|i: int| 0 <= i < part.len() implies part[i].command == all[i].command by {}
    assert forall|i: int| 0 <= i < part.len() implies key_at(part, i) == key_at(all, i) by {}
    assert forall|key: Seq<char>| last_write(part, key) == last_write(all, key) by {
        lemma_last_write_of_commands(part, all, key);
    }
    lemma_same_last_writes(index, part, all);
    assert forall|i: int| 0 <= i < part.len() && (#[trigger] part[i]).deleted implies key_at(
        part,
        i,
    ) is None || superseded(part, i) by {
        if key_at(part, i) is Some {
            assert(all[i].deleted || superseded(all, i));
            assert(superseded(all, i));
            let j = choose|j: int| i < j < all.len() && #[trigger] key_at(all, j) == key_at(all, i);
            assert(key_at(part, j) == key_at(part, i));
        }
    }
}

/// A live record behind a settled history leaves it settled.
pub proof fn lemma_push_settled(logs: Seq<LogView>, log: LogView)
    requires
        settled(logs),
        !log.deleted,
    ensures
        settled(logs.push(log)),
{
    let more = logs.push(log);
    assert forall|i: int| 0 <= i < more.len() && (#[trigger] more[i]).deleted implies key_at(
        more,
        i,
    ) is None || superseded(more, i) by {
        assert(more[i] == logs[i]);
        if key_at(more, i) is Some {
            assert(superseded(logs, i));
            let j = choose|j: int|
                i < j < logs.len() && #[trigger] key_at(logs, j) == key_at(logs, i);
            assert(key_at(more, j) == key_at(more, i));
        }
    }
}

/// Each record of the live records is a record of the history.
proof fn lemma_live_from(logs: Seq<LogView>, i: int)
    requires
        0 <= i < live(logs).len(),
    ensures
        exists|j: int|
            0 <= j < logs.len() && #[trigger] logs[j] == live(logs)[i] && !logs[j].deleted,
    decreases logs.len(),
{
    reveal(Seq::filter);
    if logs.len() > 0 {
        let init = logs.drop_last();
        if i < live(init).len() {
            lemma_live_from(init, i);
            let j = choose|j: int|
                0 <= j < init.len() && #[trigger] init[j] == live(init)[i] && !init[j].deleted;
            assert(logs[j] == live(logs)[i]);
        } else {
            assert(logs[logs.len() - 1] == live(logs)[i]);
        }
    }
}

/// Where no two live records change the same key, the live records hold
/// one record for each key at most.
proof fn lemma_live_one_per_key(logs: Seq<LogView>)
    requires
        forall|i: int, j: int|
            0 <= i < j < logs.len() && !logs[i].deleted && !logs[j].deleted && key_at(logs, i)
                is Some ==> #[trigger] key_at(logs, i) != #[trigger] key_at(logs, j),
    ensures
        one_per_key(live(logs)),
    decreases logs.len(),
{
    reveal(Seq::filter);
    if logs.len() > 0 {
        let init = logs.drop_last();
        let n = logs.len() - 1;
        assert forall|i: int, j: int|
            0 <= i < j < init.len() && !init[i].deleted && !init[j].deleted && key_at(init, i)
                is Some implies #[trigger] key_at(init, i) != #[trigger] key_at(init, j) by {
            assert(key_at(logs, i) == key_at(init, i));
            assert(key_at(logs, j) == key_at(init, j));
        }
        lemma_live_one_per_key(init);
        let kept = live(logs);
        assert forall|i: int, j: int| 0 <= i < j < kept.len() && key_at(kept, i) is Some implies
            #[trigger] key_at(kept, i) != #[trigger] key_at(kept, j) by {
            if j < live(init).len() {
                assert(key_at(kept, i) == key_at(live(init), i));
                assert(key_at(kept, j) == key_at(live(init), j));
            } else {
                lemma_live_from(init, i);
                let m = choose|m: int|
                    0 <= m < init.len() && #[trigger] init[m] == live(init)[i] && !init[m].deleted;
                assert(key_at(logs, m) == key_at(kept, i));
                assert(key_at(logs, n) == key_at(kept, j));
            }
        }
    }
}

/// The live records of a compacted history stand for the state that the
/// history stood for, and hold one record for each key at most.
pub proof fn lemma_compaction(logs: Seq<LogView>)
    requires
        settled(logs),
    ensures
        replay(live(compacted(logs))) == replay(logs),
        one_per_key(live(compacted(logs))),
        settled(live(compacted(logs))),
{
    let marked = compacted(logs);
    let none = Seq::<LogView>::empty();
    let index = Map::<Seq<char>, Seq<char>>::empty();
    lemma_compacted_settled(index, logs);
    assert(none + marked =~= marked);
    assert(none + live(marked) =~= live(marked));
    lemma_drop_deleted(index, none, marked);
    assert forall|i: int, j: int|
        0 <= i < j < marked.len() && !marked[i].deleted && !marked[j].deleted && key_at(marked, i)
            is Some implies #[trigger] key_at(marked, i) != #[trigger] key_at(marked, j) by {
        assert(key_at(logs, j) == key_at(marked, j));
        assert(key_at(logs, i) == key_at(marked, i));
        assert(!superseded(logs, i));
    }
    lemma_live_one_per_key(marked);
}

} // verus!
