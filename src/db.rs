use crate::query::{bind_int, bind_text, prepare_sql, read_row, step, Bound};
use crate::task::{lemma_push_contains, put_task, unique_details, views, Task, TaskView};
use vstd::prelude::*;

verus! {

#[verifier::external_type_specification]
#[verifier::external_body]
pub struct ExConnection(sqlite::Connection);

#[verifier::external_type_specification]
#[verifier::external_body]
pub struct ExSqliteError(sqlite::Error);

/// Where the task table is kept when no other path is given.
pub const DEFAULT_DB_PATH_STR: &'static str = "./.rust_todo.db";

pub const CREATE_SQL: &'static str =
    "CREATE TABLE IF NOT EXISTS tasks (details TEXT UNIQUE, complete INTEGER);";

pub const DROP_SQL: &'static str = "DROP TABLE IF EXISTS tasks;";

pub const SELECT_SQL: &'static str = "SELECT details, complete FROM tasks;";

pub const UPSERT_SQL: &'static str = "INSERT OR REPLACE INTO tasks VALUES (?, ?);";

pub const DELETE_ONE_SQL: &'static str = "DELETE FROM tasks WHERE details = ?;";

pub const DELETE_DONE_SQL: &'static str = "DELETE FROM tasks WHERE complete = 1;";

pub const BEGIN_SQL: &'static str = "BEGIN TRANSACTION;";

pub const COMMIT_SQL: &'static str = "COMMIT;";

pub const ROLLBACK_SQL: &'static str = "ROLLBACK;";

/// The statements that this library sends: each runs in bounded time and
/// names its columns in ASCII.
pub open spec fn fixed_statement(sql: Seq<char>) -> bool {
    sql == CREATE_SQL@ || sql == DROP_SQL@ || sql == SELECT_SQL@ || sql == UPSERT_SQL@ || sql
        == DELETE_ONE_SQL@ || sql == DELETE_DONE_SQL@ || sql == BEGIN_SQL@ || sql == COMMIT_SQL@
        || sql == ROLLBACK_SQL@
}

/// A statement handed to the store, with the values bound to it.
pub enum StoreOp {
    CreateTable,
    DropTable,
    Begin,
    Commit,
    Rollback,
    Upsert(Seq<char>, bool),
    Delete(Seq<char>),
    DeleteCompleted,
    /// A statement that does not change the table.
    Other,
}

/// The text bound at `index`.
pub open spec fn text_at(b: Map<int, Bound>, index: int) -> Seq<char> {
    match b[index] {
        Bound::Text(t) => t,
        Bound::Int(_) => Seq::empty(),
    }
}

/// The integer bound at `index`.
pub open spec fn int_at(b: Map<int, Bound>, index: int) -> i64 {
    match b[index] {
        Bound::Int(n) => n,
        Bound::Text(_) => 0,
    }
}

/// What a statement of the library that ran does, read off its SQL and the
/// values bound to it.
pub open spec fn op_of(sql: Seq<char>, b: Map<int, Bound>) -> StoreOp {
    if sql == CREATE_SQL@ {
        StoreOp::CreateTable
    } else if sql == DROP_SQL@ {
        StoreOp::DropTable
    } else if sql == BEGIN_SQL@ {
        StoreOp::Begin
    } else if sql == COMMIT_SQL@ {
        StoreOp::Commit
    } else if sql == ROLLBACK_SQL@ {
        StoreOp::Rollback
    } else if sql == UPSERT_SQL@ {
        StoreOp::Upsert(text_at(b, 1), int_at(b, 2) == 1)
    } else if sql == DELETE_ONE_SQL@ {
        StoreOp::Delete(text_at(b, 1))
    } else if sql == DELETE_DONE_SQL@ {
        StoreOp::DeleteCompleted
    } else {
        StoreOp::Other
    }
}

/// The library's statements are distinct from one another.
pub proof fn lemma_statements_distinct()
    ensures
        CREATE_SQL@ != DROP_SQL@ && CREATE_SQL@ != BEGIN_SQL@ && CREATE_SQL@ != COMMIT_SQL@
            && CREATE_SQL@ != ROLLBACK_SQL@ && CREATE_SQL@ != UPSERT_SQL@ && CREATE_SQL@
            != DELETE_ONE_SQL@ && CREATE_SQL@ != DELETE_DONE_SQL@,
        DROP_SQL@ != BEGIN_SQL@ && DROP_SQL@ != COMMIT_SQL@ && DROP_SQL@ != ROLLBACK_SQL@
            && DROP_SQL@ != UPSERT_SQL@ && DROP_SQL@ != DELETE_ONE_SQL@ && DROP_SQL@
            != DELETE_DONE_SQL@,
        BEGIN_SQL@ != COMMIT_SQL@ && BEGIN_SQL@ != ROLLBACK_SQL@ && BEGIN_SQL@ != UPSERT_SQL@
            && BEGIN_SQL@ != DELETE_ONE_SQL@ && BEGIN_SQL@ != DELETE_DONE_SQL@,
        COMMIT_SQL@ != ROLLBACK_SQL@ && COMMIT_SQL@ != UPSERT_SQL@ && COMMIT_SQL@
            != DELETE_ONE_SQL@ && COMMIT_SQL@ != DELETE_DONE_SQL@,
        ROLLBACK_SQL@ != UPSERT_SQL@ && ROLLBACK_SQL@ != DELETE_ONE_SQL@ && ROLLBACK_SQL@
            != DELETE_DONE_SQL@,
        UPSERT_SQL@ != DELETE_ONE_SQL@ && UPSERT_SQL@ != DELETE_DONE_SQL@,
        DELETE_ONE_SQL@ != DELETE_DONE_SQL@,
{
    reveal_strlit("CREATE TABLE IF NOT EXISTS tasks (details TEXT UNIQUE, complete INTEGER);");
    reveal_strlit("DROP TABLE IF EXISTS tasks;");
    reveal_strlit("BEGIN TRANSACTION;");
    reveal_strlit("COMMIT;");
    reveal_strlit("ROLLBACK;");
    reveal_strlit("INSERT OR REPLACE INTO tasks VALUES (?, ?);");
    reveal_strlit("DELETE FROM tasks WHERE details = ?;");
    reveal_strlit("DELETE FROM tasks WHERE complete = 1;");
    assert(CREATE_SQL@[0] != DROP_SQL@[0]);
    assert(CREATE_SQL@[0] != BEGIN_SQL@[0]);
    assert(CREATE_SQL@[1] != COMMIT_SQL@[1]);
    assert(CREATE_SQL@[0] != ROLLBACK_SQL@[0]);
    assert(CREATE_SQL@[0] != UPSERT_SQL@[0]);
    assert(CREATE_SQL@[0] != DELETE_ONE_SQL@[0]);
    assert(CREATE_SQL@[0] != DELETE_DONE_SQL@[0]);
    assert(DROP_SQL@[0] != BEGIN_SQL@[0]);
    assert(DROP_SQL@[0] != COMMIT_SQL@[0]);
    assert(DROP_SQL@[0] != ROLLBACK_SQL@[0]);
    assert(DROP_SQL@[0] != UPSERT_SQL@[0]);
    assert(DROP_SQL@[1] != DELETE_ONE_SQL@[1]);
    assert(DROP_SQL@[1] != DELETE_DONE_SQL@[1]);
    assert(BEGIN_SQL@[0] != COMMIT_SQL@[0]);
    assert(BEGIN_SQL@[0] != ROLLBACK_SQL@[0]);
    assert(BEGIN_SQL@[0] != UPSERT_SQL@[0]);
    assert(BEGIN_SQL@[0] != DELETE_ONE_SQL@[0]);
    assert(BEGIN_SQL@[0] != DELETE_DONE_SQL@[0]);
    assert(COMMIT_SQL@[0] != ROLLBACK_SQL@[0]);
    assert(COMMIT_SQL@[0] != UPSERT_SQL@[0]);
    assert(COMMIT_SQL@[0] != DELETE_ONE_SQL@[0]);
    assert(COMMIT_SQL@[0] != DELETE_DONE_SQL@[0]);
    assert(ROLLBACK_SQL@[0] != UPSERT_SQL@[0]);
    assert(ROLLBACK_SQL@[0] != DELETE_ONE_SQL@[0]);
    assert(ROLLBACK_SQL@[0] != DELETE_DONE_SQL@[0]);
    assert(UPSERT_SQL@[0] != DELETE_ONE_SQL@[0]);
    assert(UPSERT_SQL@[0] != DELETE_DONE_SQL@[0]);
    assert(DELETE_ONE_SQL@[24] != DELETE_DONE_SQL@[24]);
}

/// The upserts of a batch, one per task, in order.
pub open spec fn upsert_ops(s: Seq<TaskView>) -> Seq<StoreOp> {
    s.map_values(|v: TaskView| StoreOp::Upsert(v.0, v.1))
}

/// The deletes of a batch, one per task's details, in order.
pub open spec fn delete_ops(s: Seq<TaskView>) -> Seq<StoreOp> {
    s.map_values(|v: TaskView| StoreOp::Delete(v.0))
}

/// The task table, from details to flag, and, inside a transaction, the table
/// as it was at BEGIN.
pub type TableState = (Map<Seq<char>, bool>, Option<Map<Seq<char>, bool>>);

/// What one statement that ran does to the table: an upsert sets the flag of
/// its details, a delete takes out its details, the purge takes out every
/// completed row, a drop empties the table; BEGIN saves the table, COMMIT
/// keeps it and ROLLBACK goes back to the table saved at BEGIN.
pub open spec fn step_op(st: TableState, op: StoreOp) -> TableState {
    match op {
        StoreOp::Begin => (st.0, Some(st.0)),
        StoreOp::Commit => (st.0, None),
        StoreOp::Rollback => match st.1 {
            Some(saved) => (saved, None),
            None => st,
        },
        StoreOp::Upsert(d, f) => (st.0.insert(d, f), st.1),
        StoreOp::Delete(d) => (st.0.remove(d), st.1),
        StoreOp::DeleteCompleted => (
            Map::new(|k: Seq<char>| st.0.contains_key(k) && !st.0[k], |k: Seq<char>| st.0[k]),
            st.1,
        ),
        StoreOp::DropTable => (Map::empty(), st.1),
        _ => st,
    }
}

/// The state after the statements of `ops` ran in order from `st`.
pub open spec fn run_ops(st: TableState, ops: Seq<StoreOp>) -> TableState
    decreases ops.len(),
{
    if ops.len() == 0 {
        st
    } else {
        step_op(run_ops(st, ops.drop_last()), ops.last())
    }
}

/// Running two lists of statements one after the other.
pub proof fn lemma_run_concat(st: TableState, a: Seq<StoreOp>, b: Seq<StoreOp>)
    ensures
        run_ops(st, a + b) == run_ops(run_ops(st, a), b),
    decreases b.len(),
{
    if b.len() == 0 {
        assert(a + b =~= a);
    } else {
        lemma_run_concat(st, a, b.drop_last());
        assert((a + b).drop_last() =~= a + b.drop_last());
        assert((a + b).last() == b.last());
    }
}

/// Whether `op` changes rows only: an upsert or a delete.
pub open spec fn row_op(op: StoreOp) -> bool {
    op is Upsert || op is Delete
}

/// Statements that change rows only leave the table saved at BEGIN alone.
pub proof fn lemma_row_ops_keep_saved(st: TableState, ops: Seq<StoreOp>)
    requires
        forall|i: int| 0 <= i < ops.len() ==> row_op(#[trigger] ops[i]),
    ensures
        run_ops(st, ops).1 == st.1,
    decreases ops.len(),
{
    if ops.len() > 0 {
        lemma_row_ops_keep_saved(st, ops.drop_last());
        assert(row_op(ops[ops.len() - 1]));
    }
}

/// The upserts of a flush leave every task's details mapped to its flag, and
/// the rows with other details as they were.
pub proof fn lemma_flush_table(st: TableState, s: Seq<TaskView>)
    requires
        unique_details(s),
    ensures
        forall|k: int|
            0 <= k < s.len() ==> run_ops(st, upsert_ops(s)).0.contains_key((#[trigger] s[k]).0)
                && run_ops(st, upsert_ops(s)).0[s[k].0] == s[k].1,
        forall|d: Seq<char>|
            (forall|k: int| 0 <= k < s.len() ==> (#[trigger] s[k]).0 != d) ==> run_ops(
                st,
                upsert_ops(s),
            ).0.get(d) == st.0.get(d),
        run_ops(st, upsert_ops(s)).1 == st.1,
    decreases s.len(),
{
    if s.len() > 0 {
        let rest = s.drop_last();
        assert(upsert_ops(s).drop_last() =~= upsert_ops(rest));
        assert(unique_details(rest)) by {
            assert forall|i: int, j: int|
                0 <= i < rest.len() && 0 <= j < rest.len() && i != j implies (
                #[trigger] rest[i]).0 != (#[trigger] rest[j]).0 by {
                assert(rest[i] == s[i] && rest[j] == s[j]);
            }
        }
        lemma_flush_table(st, rest);
        assert(upsert_ops(s).last() == StoreOp::Upsert(s.last().0, s.last().1));
        assert(run_ops(st, upsert_ops(s)).0 == run_ops(st, upsert_ops(rest)).0.insert(
            s.last().0,
            s.last().1,
        ));
        assert forall|k: int| 0 <= k < rest.len() implies (#[trigger] rest[k]).0 != s.last().0 by {
            assert(rest[k] == s[k]);
            assert(s.last() == s[s.len() - 1]);
        }
        assert forall|k: int| 0 <= k < s.len() implies run_ops(st, upsert_ops(s)).0.contains_key(
            (#[trigger] s[k]).0,
        ) && run_ops(st, upsert_ops(s)).0[s[k].0] == s[k].1 by {
            if k < rest.len() {
                assert(rest[k] == s[k]);
            }
        }
        assert forall|d: Seq<char>|
            (forall|k: int| 0 <= k < s.len() ==> (#[trigger] s[k]).0 != d) implies run_ops(
            st,
            upsert_ops(s),
        ).0.get(d) == st.0.get(d) by {
            assert forall|k: int| 0 <= k < rest.len() implies (#[trigger] rest[k]).0 != d by {
                assert(rest[k] == s[k]);
            }
            assert(s[s.len() - 1].0 != d);
        }
    }
}

/// The statements of a flush: BEGIN, one upsert per task in order, COMMIT.
pub open spec fn flush_batch(s: Seq<TaskView>) -> Seq<StoreOp> {
    seq![StoreOp::Begin] + upsert_ops(s).push(StoreOp::Commit)
}

/// A whole flush of tasks with unique details leaves every task's details
/// mapped to its flag and the rows with other details as they were: from an
/// empty table, exactly the flushed pairs.
pub proof fn lemma_flush_sets_rows(st: TableState, s: Seq<TaskView>)
    requires
        unique_details(s),
    ensures
        forall|k: int|
            0 <= k < s.len() ==> run_ops(st, flush_batch(s)).0.contains_key((#[trigger] s[k]).0)
                && run_ops(st, flush_batch(s)).0[s[k].0] == s[k].1,
        forall|d: Seq<char>|
            (forall|k: int| 0 <= k < s.len() ==> (#[trigger] s[k]).0 != d) ==> run_ops(
                st,
                flush_batch(s),
            ).0.get(d) == st.0.get(d),
{
    let begun = step_op(st, StoreOp::Begin);
    assert(run_ops(st, seq![StoreOp::Begin]) == begun) by {
        let one = seq![StoreOp::Begin];
        assert(one.drop_last() =~= Seq::<StoreOp>::empty());
        assert(run_ops(st, one.drop_last()) == st);
        assert(one.last() == StoreOp::Begin);
    }
    lemma_run_concat(st, seq![StoreOp::Begin], upsert_ops(s));
    assert(flush_batch(s).drop_last() =~= seq![StoreOp::Begin] + upsert_ops(s));
    lemma_flush_table(begun, s);
}

/// A batch that ended in a ROLLBACK that ran, or that never began, leaves the
/// table as it was before the batch.
pub proof fn lemma_rollback_restores(
    st: TableState,
    before: Seq<StoreOp>,
    after: Seq<StoreOp>,
    done: Seq<StoreOp>,
)
    requires
        failed_batch(before, after, done),
        after != before.push(StoreOp::Begin) + done,
        forall|i: int| 0 <= i < done.len() ==> row_op(#[trigger] done[i]),
    ensures
        run_ops(st, after).0 == run_ops(st, before).0,
{
    if after != before {
        let begun = before.push(StoreOp::Begin);
        lemma_run_concat(st, begun, done);
        lemma_row_ops_keep_saved(run_ops(st, begun), done);
        assert(begun.drop_last() =~= before);
        assert((begun + done).push(StoreOp::Rollback).drop_last() == begun + done);
    }
}

/// The upserts of a batch change rows only.
pub proof fn lemma_upserts_are_row_ops(s: Seq<TaskView>)
    ensures
        forall|i: int| 0 <= i < upsert_ops(s).len() ==> row_op(#[trigger] upsert_ops(s)[i]),
{
}

/// The deletes of a batch change rows only.
pub proof fn lemma_deletes_are_row_ops(s: Seq<TaskView>)
    ensures
        forall|i: int| 0 <= i < delete_ops(s).len() ==> row_op(#[trigger] delete_ops(s)[i]),
{
}

/// After the purge no completed row is left, and every row that was not
/// complete is kept with its flag.
pub proof fn lemma_purge_table(st: TableState)
    ensures
        forall|k: Seq<char>| #[trigger]
            step_op(st, StoreOp::DeleteCompleted).0.contains_key(k) ==> !step_op(
                st,
                StoreOp::DeleteCompleted,
            ).0[k],
        forall|k: Seq<char>|
            #![trigger st.0.contains_key(k)]
            st.0.contains_key(k) && !st.0[k] ==> step_op(st, StoreOp::DeleteCompleted).0.contains_key(
                k,
            ) && !step_op(st, StoreOp::DeleteCompleted).0[k],
{
}

/// The deletes of a bulk delete take out exactly the given details, whatever
/// their flag, and leave the other rows as they were.
pub proof fn lemma_bulk_delete_table(st: TableState, s: Seq<TaskView>)
    ensures
        run_ops(st, delete_ops(s)).0 == st.0.remove_keys(s.map_values(|v: TaskView| v.0).to_set()),
    decreases s.len(),
{
    if s.len() > 0 {
        let rest = s.drop_last();
        assert(delete_ops(s).drop_last() =~= delete_ops(rest));
        lemma_bulk_delete_table(st, rest);
        let keys = s.map_values(|v: TaskView| v.0);
        let rest_keys = rest.map_values(|v: TaskView| v.0);
        assert(keys =~= rest_keys.push(s.last().0));
        lemma_push_contains(rest_keys, s.last().0);
        assert(run_ops(st, delete_ops(s)).0 =~= st.0.remove_keys(keys.to_set()));
    } else {
        assert(st.0.remove_keys(s.map_values(|v: TaskView| v.0).to_set()) =~= st.0);
    }
}

/// How the record of a failed batch ends, from `before`: either BEGIN did not
/// run and nothing was recorded, or BEGIN and the first statements `done` of
/// the batch ran, possibly followed by a ROLLBACK.
pub open spec fn failed_batch(before: Seq<StoreOp>, after: Seq<StoreOp>, done: Seq<StoreOp>) -> bool {
    after == before || after == before.push(StoreOp::Begin) + done || after == (before.push(
        StoreOp::Begin,
    ) + done).push(StoreOp::Rollback)
}

/// The ways in which the store can fail.
#[derive(Clone, Copy, Debug, PartialEq, Eq, Structural)]
pub enum StorageError {
    /// The store could not be opened or created.
    Unavailable,
    /// A query or a row decode failed while loading.
    Read,
    /// A query failed while writing.
    Write,
}

/// Relies on sqlite::open: opens or creates the database file at `path`, and
/// makes a handle on it that records that path and has sent nothing yet.
#[verifier::external_body]
fn open_connection(path: &str) -> (r: Result<DBHelper, sqlite::Error>)
    ensures
        r is Ok ==> r->Ok_0.path() == path@ && r->Ok_0.log() == Seq::<StoreOp>::empty(),
{
    match sqlite::open(path) {
        Ok(connection) => Ok(DBHelper { connection, at: Ghost(path@), record: Ghost(Seq::empty()) }),
        Err(e) => Err(e),
    }
}

/// The integer by which a completion flag is stored.
pub open spec fn flag_code(complete: bool) -> i64 {
    if complete {
        1
    } else {
        0
    }
}

/// Encodes a completion flag as it is stored: 1 for complete, 0 for not.
pub fn encode_complete(complete: bool) -> (r: i64)
    ensures
        r == flag_code(complete),
{
    if complete {
        1
    } else {
        0
    }
}

/// Builds a task from a stored row: complete exactly when the stored flag is 1.
pub fn task_from_row(details: String, complete: i64) -> (r: Task)
    ensures
        r@ == (details@, complete == 1),
{
    Task { details, complete: complete == 1 }
}

/// Whether the row read last with the details of `v` says `v`: some row has
/// the details and flag of `v` (complete when the stored flag is 1), and no
/// later row has the same details.
pub open spec fn row_wins(rows: Seq<(String, i64)>, v: TaskView) -> bool {
    exists|i: int|
        0 <= i < rows.len() && (#[trigger] rows[i]).0@ == v.0 && (rows[i].1 == 1) == v.1 && forall|
            j: int,
        |
            i < j < rows.len() ==> (#[trigger] rows[j]).0@ != v.0
}

/// The tasks that the rows read from the store describe: for each details the
/// last row that has them wins.
pub fn tasks_from_rows(rows: &Vec<(String, i64)>) -> (r: Vec<Task>)
    ensures
        forall|v: TaskView| #[trigger] views(r@).contains(v) <==> row_wins(rows@, v),
        unique_details(views(r@)),
{
    let mut tasks: Vec<Task> = Vec::new();
    proof {
        assert(views(tasks@) =~= Seq::<TaskView>::empty());
    }
    let mut i: usize = 0;
    while i < rows.len()
        invariant
            i <= rows@.len(),
            forall|v: TaskView| #[trigger]
                views(tasks@).contains(v) <==> row_wins(rows@.take(i as int), v),
            unique_details(views(tasks@)),
        decreases rows@.len() - i,
    {
        let ghost prefix = rows@.take(i as int);
        let ghost next = rows@.take(i + 1);
        let task = task_from_row(rows[i].0.clone(), rows[i].1);
        put_task(&mut tasks, task);
        proof {
            assert(next =~= prefix.push(rows@[i as int]));
            let x = rows@[i as int];
            assert forall|v: TaskView| row_wins(next, v) <==> ((row_wins(prefix, v) && v.0 != x.0@)
                || v == task@) by {
                if row_wins(next, v) {
                    let a = choose|a: int|
                        0 <= a < next.len() && (#[trigger] next[a]).0@ == v.0 && (next[a].1 == 1)
                            == v.1 && forall|j: int| a < j < next.len() ==> (#[trigger] next[j]).0@
                            != v.0;
                    if a < i {
                        assert(next[i as int] == x);
                        assert(prefix[a] == next[a]);
                        assert forall|j: int| a < j < prefix.len() implies (
                        #[trigger] prefix[j]).0@ != v.0 by {
                            assert(prefix[j] == next[j]);
                        }
                    } else {
                        assert(next[a] == x);
                    }
                }
                if row_wins(prefix, v) && v.0 != x.0@ {
                    let a = choose|a: int|
                        0 <= a < prefix.len() && (#[trigger] prefix[a]).0@ == v.0 && (prefix[a].1
                            == 1) == v.1 && forall|j: int|
                            a < j < prefix.len() ==> (#[trigger] prefix[j]).0@ != v.0;
                    assert(next[a] == prefix[a]);
                    assert forall|j: int| a < j < next.len() implies (#[trigger] next[j]).0@
                        != v.0 by {
                        if j < prefix.len() {
                            assert(prefix[j] == next[j]);
                        } else {
                            assert(next[j] == x);
                        }
                    }
                }
                if v == task@ {
                    assert(next[i as int] == x);
                }
            }
        }
        i = i + 1;
    }
    proof {
        assert(rows@.take(i as int) =~= rows@);
    }
    tasks
}

/// A handle on the task table, with the record of the statements handed to it.
pub struct DBHelper {
    connection: sqlite::Connection,
    at: Ghost<Seq<char>>,
    record: Ghost<Seq<StoreOp>>,
}

impl DBHelper {
    /// The path that the store was opened at.
    pub closed spec fn path(&self) -> Seq<char> {
        self.at@
    }

    /// The statements handed to the store through this handle, in order.
    pub closed spec fn log(&self) -> Seq<StoreOp> {
        self.record@
    }

    /// Opens (or creates) the store at `db_path` and makes sure the task table exists.
    pub fn new(db_path: &str) -> (r: Result<DBHelper, StorageError>)
        ensures
            r is Ok ==> r->Ok_0.log() == seq![StoreOp::CreateTable] && r->Ok_0.path() == db_path@,
            r is Err ==> r == Err::<DBHelper, StorageError>(StorageError::Unavailable),
    {
        match open_connection(db_path) {
            Ok(mut db) => {
                proof {
                    lemma_statements_distinct();
                }
                let created = db.run_plain(CREATE_SQL);
                match created {
                    Ok(()) => {
                        assert(db.log() =~= seq![StoreOp::CreateTable]);
                        Ok(db)
                    },
                    Err(_) => Err(StorageError::Unavailable),
                }
            },
            Err(_) => Err(StorageError::Unavailable),
        }
    }

    /// Opens the store at the default path.
    pub fn open_default() -> (r: Result<DBHelper, StorageError>)
        ensures
            r is Ok ==> r->Ok_0.log() == seq![StoreOp::CreateTable] && r->Ok_0.path()
                == DEFAULT_DB_PATH_STR@,
            r is Err ==> r == Err::<DBHelper, StorageError>(StorageError::Unavailable),
    {
        DBHelper::new(DEFAULT_DB_PATH_STR)
    }

    /// Prepares and runs a statement that takes no values, and records it
    /// where it ran.
    fn run_plain(&mut self, sql: &str) -> (r: Result<(), sqlite::Error>)
        requires
            sql@ == CREATE_SQL@ || sql@ == DROP_SQL@ || sql@ == BEGIN_SQL@ || sql@ == COMMIT_SQL@
                || sql@ == ROLLBACK_SQL@ || sql@ == DELETE_DONE_SQL@,
        ensures
            final(self).path() == old(self).path(),
            r is Ok ==> final(self).log() == old(self).log().push(op_of(sql@, Map::empty())),
            r is Err ==> final(self).log() == old(self).log(),
    {
        let ghost mut op = StoreOp::Other;
        let done = {
            let mut query = match prepare_sql(&self.connection, sql.to_owned()) {
                Ok(q) => q,
                Err(e) => return Err(e),
            };
            match step(&mut query) {
                Ok(_) => {
                    proof {
                        op = op_of(query.sql(), query.bindings());
                    }
                    Ok(())
                },
                Err(e) => Err(e),
            }
        };
        if done.is_ok() {
            self.record = Ghost(self.record@.push(op));
        }
        done
    }

    /// Drops the task table.
    pub fn _reset_db(&mut self) -> (r: Result<(), StorageError>)
        ensures
            final(self).path() == old(self).path(),
            r is Ok ==> final(self).log() == old(self).log().push(StoreOp::DropTable),
            r is Err ==> final(self).log() == old(self).log(),
            r is Err ==> r == Err::<(), StorageError>(StorageError::Write),
    {
        proof {
            lemma_statements_distinct();
        }
        match self.run_plain(DROP_SQL) {
            Ok(()) => Ok(()),
            Err(_) => Err(StorageError::Write),
        }
    }

    /// Reads every stored task: the rows of the table are read in turn and
    /// then made into tasks by `tasks_from_rows`.
    pub fn load_tasks(&self) -> (r: Result<Vec<Task>, StorageError>)
        ensures
            r is Err ==> r == Err::<Vec<Task>, StorageError>(StorageError::Read),
            r is Ok ==> unique_details(views(r->Ok_0@)),
    {
        let rows = match self.read_rows() {
            Ok(rows) => rows,
            Err(e) => return Err(e),
        };
        Ok(tasks_from_rows(&rows))
    }

    /// Reads the (details, flag) rows of the table, in the order the store gives them.
    fn read_rows(&self) -> (r: Result<Vec<(String, i64)>, StorageError>)
        ensures
            r is Err ==> r == Err::<Vec<(String, i64)>, StorageError>(StorageError::Read),
    {
        let mut rows_read: Vec<(String, i64)> = Vec::new();
        let mut query = match prepare_sql(&self.connection, SELECT_SQL.to_owned()) {
            Ok(q) => q,
            Err(_) => return Err(StorageError::Read),
        };
        // A table holds fewer rows than a `usize` counts; the bound gives the loop a measure.
        let mut rows: usize = 0;
        while rows < usize::MAX
            decreases usize::MAX - rows,
        {
            match step(&mut query) {
                Ok(true) => {},
                Ok(false) => return Ok(rows_read),
                Err(_) => return Err(StorageError::Read),
            }
            let (details, complete) = match read_row(&query, "details", "complete") {
                Ok(row) => row,
                Err(_) => return Err(StorageError::Read),
            };
            rows_read.push((details, complete));
            rows = rows + 1;
        }
        Err(StorageError::Read)
    }

    /// Prepares, binds and runs the upsert of `task`, and records it where it ran.
    fn upsert(&mut self, task: &Task) -> (r: Result<(), sqlite::Error>)
        ensures
            final(self).path() == old(self).path(),
            r is Ok ==> final(self).log() == old(self).log().push(
                StoreOp::Upsert(task.details@, task.complete),
            ),
            r is Err ==> final(self).log() == old(self).log(),
    {
        let ghost mut op = StoreOp::Other;
        let done = {
            let mut query = match prepare_sql(&self.connection, UPSERT_SQL.to_owned()) {
                Ok(q) => q,
                Err(e) => return Err(e),
            };
            if let Err(e) = bind_text(&mut query, 1, task.details.as_str()) {
                return Err(e);
            }
            if let Err(e) = bind_int(&mut query, 2, encode_complete(task.complete)) {
                return Err(e);
            }
            match step(&mut query) {
                Ok(_) => {
                    proof {
                        op = op_of(query.sql(), query.bindings());
                        lemma_statements_distinct();
                    }
                    Ok(())
                },
                Err(e) => Err(e),
            }
        };
        if done.is_ok() {
            self.record = Ghost(self.record@.push(op));
        }
        done
    }

    /// Prepares, binds and runs the delete of the row with the details of
    /// `task`, and records it where it ran.
    fn delete_row(&mut self, task: &Task) -> (r: Result<(), sqlite::Error>)
        ensures
            final(self).path() == old(self).path(),
            r is Ok ==> final(self).log() == old(self).log().push(StoreOp::Delete(task.details@)),
            r is Err ==> final(self).log() == old(self).log(),
    {
        let ghost mut op = StoreOp::Other;
        let done = {
            let mut query = match prepare_sql(&self.connection, DELETE_ONE_SQL.to_owned()) {
                Ok(q) => q,
                Err(e) => return Err(e),
            };
            if let Err(e) = bind_text(&mut query, 1, task.details.as_str()) {
                return Err(e);
            }
            match step(&mut query) {
                Ok(_) => {
                    proof {
                        op = op_of(query.sql(), query.bindings());
                        lemma_statements_distinct();
                    }
                    Ok(())
                },
                Err(e) => Err(e),
            }
        };
        if done.is_ok() {
            self.record = Ghost(self.record@.push(op));
        }
        done
    }

    /// Persists a single task, replacing the stored row with the same details.
    pub fn insert_task(&mut self, task: &Task) -> (r: Result<(), StorageError>)
        ensures
            final(self).path() == old(self).path(),
            r is Ok ==> final(self).log() == old(self).log().push(
                StoreOp::Upsert(task.details@, task.complete),
            ),
            r is Err ==> final(self).log() == old(self).log(),
            r is Err ==> r == Err::<(), StorageError>(StorageError::Write),
    {
        match self.upsert(task) {
            Ok(()) => Ok(()),
            Err(_) => Err(StorageError::Write),
        }
    }

    /// Persists all `tasks` in one transaction: BEGIN, one upsert per task in
    /// order, COMMIT. Where a statement after BEGIN fails, ROLLBACK is sent.
    pub fn insert_tasks(&mut self, tasks: &Vec<Task>) -> (r: Result<(), StorageError>)
        ensures
            final(self).path() == old(self).path(),
            r is Ok ==> final(self).log() == old(self).log() + flush_batch(views(tasks@)),
            r is Err ==> r == Err::<(), StorageError>(StorageError::Write),
            r is Err ==> exists|k: int|
                0 <= k <= tasks@.len() && failed_batch(
                    old(self).log(),
                    final(self).log(),
                    upsert_ops(views(tasks@).take(k)),
                ),
    {
        proof {
            lemma_statements_distinct();
        }
        if self.run_plain(BEGIN_SQL).is_err() {
            assert(failed_batch(old(self).log(), self.log(), upsert_ops(views(tasks@).take(0))));
            return Err(StorageError::Write);
        }
        let ghost start = self.log();
        let mut i: usize = 0;
        while i < tasks.len()
            invariant
                i <= tasks@.len(),
                start == old(self).log().push(StoreOp::Begin),
                self.log() == start + upsert_ops(views(tasks@).take(i as int)),
                self.path() == old(self).path(),
            decreases tasks@.len() - i,
        {
            let ghost before = self.log();
            let failed = self.upsert(&tasks[i]).is_err();
            if failed {
                proof {
                    lemma_statements_distinct();
                }
                let ghost sent = self.log();
                assert(sent == old(self).log().push(StoreOp::Begin) + upsert_ops(views(tasks@).take(i as int)));
                let _ = self.run_plain(ROLLBACK_SQL);
                assert(self.log() == sent || self.log() == sent.push(StoreOp::Rollback));
                assert(failed_batch(old(self).log(), self.log(), upsert_ops(views(tasks@).take(i as int))));
                return Err(StorageError::Write);
            }
            proof {
                assert(upsert_ops(views(tasks@).take(i + 1)) =~= upsert_ops(
                    views(tasks@).take(i as int),
                ).push(StoreOp::Upsert(tasks@[i as int].details@, tasks@[i as int].complete)));
                assert(self.log() =~= start + upsert_ops(views(tasks@).take(i + 1)));
            }
            i = i + 1;
        }
        proof {
            assert(views(tasks@).take(i as int) =~= views(tasks@));
        }
        match self.run_plain(COMMIT_SQL) {
            Ok(()) => {
                assert(self.log() =~= old(self).log() + flush_batch(views(tasks@)));
                Ok(())
            },
            Err(_) => {
                let ghost sent = self.log();
                assert(sent == old(self).log().push(StoreOp::Begin) + upsert_ops(views(tasks@).take(i as int)));
                let _ = self.run_plain(ROLLBACK_SQL);
                assert(self.log() == sent || self.log() == sent.push(StoreOp::Rollback));
                assert(failed_batch(old(self).log(), self.log(), upsert_ops(views(tasks@).take(i as int))));
                Err(StorageError::Write)
            },
        }
    }

    /// Deletes the stored row with the details of `task`.
    pub fn _delete_task(&mut self, task: &Task) -> (r: Result<(), StorageError>)
        ensures
            final(self).path() == old(self).path(),
            r is Ok ==> final(self).log() == old(self).log().push(StoreOp::Delete(task.details@)),
            r is Err ==> final(self).log() == old(self).log(),
            r is Err ==> r == Err::<(), StorageError>(StorageError::Write),
    {
        match self.delete_row(task) {
            Ok(()) => Ok(()),
            Err(_) => Err(StorageError::Write),
        }
    }

    /// Deletes the stored rows of all `tasks` in one transaction: BEGIN, one
    /// delete per task's details in order, COMMIT. Where a statement after
    /// BEGIN fails, ROLLBACK is sent.
    pub fn _delete_tasks(&mut self, tasks: &Vec<Task>) -> (r: Result<(), StorageError>)
        ensures
            final(self).path() == old(self).path(),
            r is Ok ==> final(self).log() == old(self).log().push(StoreOp::Begin) + delete_ops(
                views(tasks@),
            ).push(StoreOp::Commit),
            r is Err ==> r == Err::<(), StorageError>(StorageError::Write),
            r is Err ==> exists|k: int|
                0 <= k <= tasks@.len() && failed_batch(
                    old(self).log(),
                    final(self).log(),
                    delete_ops(views(tasks@).take(k)),
                ),
    {
        proof {
            lemma_statements_distinct();
        }
        if self.run_plain(BEGIN_SQL).is_err() {
            assert(failed_batch(old(self).log(), self.log(), delete_ops(views(tasks@).take(0))));
            return Err(StorageError::Write);
        }
        let ghost start = self.log();
        let mut i: usize = 0;
        while i < tasks.len()
            invariant
                i <= tasks@.len(),
                start == old(self).log().push(StoreOp::Begin),
                self.log() == start + delete_ops(views(tasks@).take(i as int)),
                self.path() == old(self).path(),
            decreases tasks@.len() - i,
        {
            let failed = self.delete_row(&tasks[i]).is_err();
            if failed {
                proof {
                    lemma_statements_distinct();
                }
                let ghost sent = self.log();
                assert(sent == old(self).log().push(StoreOp::Begin) + delete_ops(views(tasks@).take(i as int)));
                let _ = self.run_plain(ROLLBACK_SQL);
                assert(self.log() == sent || self.log() == sent.push(StoreOp::Rollback));
                assert(failed_batch(old(self).log(), self.log(), delete_ops(views(tasks@).take(i as int))));
                return Err(StorageError::Write);
            }
            proof {
                assert(delete_ops(views(tasks@).take(i + 1)) =~= delete_ops(
                    views(tasks@).take(i as int),
                ).push(StoreOp::Delete(tasks@[i as int].details@)));
                assert(self.log() =~= start + delete_ops(views(tasks@).take(i + 1)));
            }
            i = i + 1;
        }
        proof {
            assert(views(tasks@).take(i as int) =~= views(tasks@));
        }
        match self.run_plain(COMMIT_SQL) {
            Ok(()) => {
                assert(self.log() =~= old(self).log().push(StoreOp::Begin) + delete_ops(
                    views(tasks@),
                ).push(StoreOp::Commit));
                Ok(())
            },
            Err(_) => {
                let ghost sent = self.log();
                assert(sent == old(self).log().push(StoreOp::Begin) + delete_ops(views(tasks@).take(i as int)));
                let _ = self.run_plain(ROLLBACK_SQL);
                assert(self.log() == sent || self.log() == sent.push(StoreOp::Rollback));
                assert(failed_batch(old(self).log(), self.log(), delete_ops(views(tasks@).take(i as int))));
                Err(StorageError::Write)
            },
        }
    }

    /// Deletes every stored task that is marked complete.
    pub fn delete_completed_tasks(&mut self) -> (r: Result<(), StorageError>)
        ensures
            final(self).path() == old(self).path(),
            r is Ok ==> final(self).log() == old(self).log().push(StoreOp::DeleteCompleted),
            r is Err ==> final(self).log() == old(self).log(),
            r is Err ==> r == Err::<(), StorageError>(StorageError::Write),
    {
        proof {
            lemma_statements_distinct();
        }
        match self.run_plain(DELETE_DONE_SQL) {
            Ok(()) => Ok(()),
            Err(_) => Err(StorageError::Write),
        }
    }
}

} // verus!
