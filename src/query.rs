use crate::db::fixed_statement;
use vstd::prelude::*;

verus! {

#[verifier::external_type_specification]
#[verifier::external_body]
pub struct ExStatement<'l>(sqlite::Statement<'l>);

/// A value bound to a parameter of a statement.
pub enum Bound {
    Text(Seq<char>),
    Int(i64),
}

/// A prepared statement of the store, with the SQL it was made from, the values
/// bound to its parameters, and whether it has run. Only the functions of this
/// module set these.
pub struct Query<'a> {
    raw: sqlite::Statement<'a>,
    sql: Ghost<Seq<char>>,
    bound: Ghost<Map<int, Bound>>,
    ran: Ghost<bool>,
}

impl<'a> Query<'a> {
    /// The SQL that the statement was prepared from.
    pub closed spec fn sql(&self) -> Seq<char> {
        self.sql@
    }

    /// The values bound so far, by parameter index (from 1).
    pub closed spec fn bindings(&self) -> Map<int, Bound> {
        self.bound@
    }

    /// Whether the store has run the statement.
    pub closed spec fn ran(&self) -> bool {
        self.ran@
    }
}

/// Relies on sqlite::Connection::prepare: compiles `sql` into a statement with
/// nothing bound. Only the library's own statements are admitted, whose column
/// names are ASCII.
#[verifier::external_body]
pub fn prepare_sql(connection: &sqlite::Connection, sql: String) -> (r: Result<Query, sqlite::Error>)
    requires
        fixed_statement(sql@),
    ensures
        r is Ok ==> r->Ok_0.sql() == sql@,
        r is Ok ==> r->Ok_0.bindings() =~= Map::empty(),
        r is Ok ==> !r->Ok_0.ran(),
{
    match connection.prepare(&sql) {
        Ok(raw) => Ok(Query { raw, sql: Ghost(sql@), bound: Ghost(Map::empty()), ran: Ghost(false) }),
        Err(e) => Err(e),
    }
}

/// Relies on sqlite::Statement::bind: binds text to the parameter at `index` (from 1).
#[verifier::external_body]
pub fn bind_text(query: &mut Query, index: usize, value: &str) -> (r: Result<(), sqlite::Error>)
    ensures
        final(query).sql() == old(query).sql(),
        final(query).ran() == old(query).ran(),
        r is Ok ==> final(query).bindings() == old(query).bindings().insert(index as int, Bound::Text(value@)),
{
    query.raw.bind((index, value))
}

/// Relies on sqlite::Statement::bind: binds an integer to the parameter at `index` (from 1).
#[verifier::external_body]
pub fn bind_int(query: &mut Query, index: usize, value: i64) -> (r: Result<(), sqlite::Error>)
    ensures
        final(query).sql() == old(query).sql(),
        final(query).ran() == old(query).ran(),
        r is Ok ==> final(query).bindings() == old(query).bindings().insert(index as int, Bound::Int(value)),
{
    query.raw.bind((index, value))
}

/// Relies on sqlite::Statement::next: `true` where a row is ready to be read,
/// `false` where the statement has run to its end. Every statement is made by
/// `prepare_sql` from a fixed statement, none of which can run without end.
#[verifier::external_body]
pub fn step(query: &mut Query) -> (r: Result<bool, sqlite::Error>)
    ensures
        final(query).sql() == old(query).sql(),
        final(query).bindings() == old(query).bindings(),
        r is Ok ==> final(query).ran(),
{
    match query.raw.next() {
        Ok(sqlite::State::Row) => Ok(true),
        Ok(sqlite::State::Done) => Ok(false),
        Err(e) => Err(e),
    }
}

/// Relies on sqlite::Statement::read: the text and the integer columns of
/// the current row, by name.
#[verifier::external_body]
pub fn read_row(query: &Query, text_column: &str, int_column: &str) -> (r: Result<(String, i64), sqlite::Error>) {
    let text = query.raw.read::<String, _>(text_column)?;
    let flag = query.raw.read::<i64, _>(int_column)?;
    Ok((text, flag))
}

} // verus!
