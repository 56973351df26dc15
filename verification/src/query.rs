//! The query console's engine: the commits and changed files are loaded
//! into an in-memory SQLite database, the user's query (in the console's
//! dialect) runs read-only against it, and every cell comes back as text.

use vstd::prelude::*;
use crate::history::Commit;
use crate::sql::{
    authorize, cell_text, cell_text_of, format_sql_error, rewrite_contains, sql_error_message_of,
    rewritten, sqlite_error_text, CellValue, FileChangeRow, SqlAction,
};
use crate::text::{append_chars, chars_of, string_of};

verus! {

#[verifier::external_type_specification]
#[verifier::external_body]
pub struct ExConnection(rusqlite::Connection);

#[verifier::external_type_specification]
#[verifier::external_body]
pub struct ExStatement<'conn>(rusqlite::Statement<'conn>);

#[verifier::external_type_specification]
#[verifier::external_body]
pub struct ExRows<'stmt>(rusqlite::Rows<'stmt>);

#[verifier::external_type_specification]
#[verifier::external_body]
pub struct ExRow<'stmt>(rusqlite::Row<'stmt>);

/// A value bound to a `?` placeholder.
pub enum SqlParam {
    Text(String),
    Integer(i64),
}

/// What a step on a connection did: ran a batch of statements, ran one
/// statement with bound values, or installed the read-only authorizer.
pub enum DbStepKind {
    Batch,
    Execute,
    ReadOnly,
}

/// One step that changed a connection: its kind, the SQL text, and the
/// values bound to its placeholders.
pub type DbStep = (DbStepKind, Seq<char>, Seq<SqlParam>);

/// The steps that succeeded on `conn` since it was opened, in order: what
/// its tables, rows and authorizer came from.
pub uninterp spec fn db_steps(conn: rusqlite::Connection) -> Seq<DbStep>;

/// The SQL text that `st` was prepared from.
pub uninterp spec fn statement_sql(st: rusqlite::Statement<'_>) -> Seq<char>;

/// The steps of the connection that `st` was prepared on, at the time it
/// was prepared.
pub uninterp spec fn statement_steps(st: rusqlite::Statement<'_>) -> Seq<DbStep>;

/// The column names of the result of `query` on a connection built by
/// `steps`.  SQLite decides them from the schema and the query text alone.
pub uninterp spec fn result_columns(steps: Seq<DbStep>, query: Seq<char>) -> Seq<Seq<char>>;

/// Calls `rusqlite::Connection::open_in_memory`.  Whether it succeeds
/// depends on the machine; a new connection has had no step.
#[verifier::external_body]
fn sqlite_open() -> (r: Result<rusqlite::Connection, rusqlite::Error>)
    ensures
        r matches Ok(c) ==> db_steps(c) == Seq::<DbStep>::empty(),
{
    rusqlite::Connection::open_in_memory()
}

/// Calls `rusqlite::Connection::execute_batch`.  Whether it succeeds is
/// SQLite's decision; when it does, the batch is the connection's next
/// step.  Of a failed batch nothing is said.
#[verifier::external_body]
fn sqlite_execute_batch(conn: &mut rusqlite::Connection, sql: &str) -> (r: Result<(), rusqlite::Error>)
    ensures
        r is Ok ==> db_steps(*final(conn)) == db_steps(*old(conn)).push((DbStepKind::Batch, sql@, Seq::<SqlParam>::empty())),
{
    conn.execute_batch(sql)
}

/// Calls `rusqlite::Connection::prepare`.  Whether the text compiles is
/// SQLite's decision; a statement it gives is compiled from `sql` on the
/// connection as it stands.
#[verifier::external_body]
fn sqlite_prepare<'c>(conn: &'c rusqlite::Connection, sql: &str) -> (r: Result<rusqlite::Statement<'c>, rusqlite::Error>)
    ensures
        r matches Ok(st) ==> statement_sql(st) == sql@ && statement_steps(st) == db_steps(*conn),
{
    conn.prepare(sql)
}

/// Calls `rusqlite::Connection::execute` with the values `params` bound in
/// order.  Whether it succeeds is SQLite's decision; when it does, the
/// statement with those values is the connection's next step.
#[verifier::external_body]
fn sqlite_execute(conn: &mut rusqlite::Connection, sql: &str, params: &Vec<SqlParam>) -> (r: Result<usize, rusqlite::Error>)
    ensures
        r is Ok ==> db_steps(*final(conn)) == db_steps(*old(conn)).push((DbStepKind::Execute, sql@, params@)),
{
    let values = params.iter().map(|p| match p {
        SqlParam::Text(t) => rusqlite::types::Value::Text(t.clone()),
        SqlParam::Integer(n) => rusqlite::types::Value::Integer(*n),
    });
    conn.execute(sql, rusqlite::params_from_iter(values))
}

/// Calls `rusqlite::Connection::authorizer` with a callback that allows
/// exactly what `authorize` allows.  When it succeeds, installing it is the
/// connection's next step.
#[verifier::external_body]
fn sqlite_read_only(conn: &mut rusqlite::Connection) -> (r: Result<(), rusqlite::Error>)
    ensures
        r is Ok ==> db_steps(*final(conn)) == db_steps(*old(conn)).push((DbStepKind::ReadOnly, Seq::<char>::empty(), Seq::<SqlParam>::empty())),
{
    conn.authorizer(Some(|ctx: rusqlite::hooks::AuthContext<'_>| {
        let action = match ctx.action {
            rusqlite::hooks::AuthAction::Select => SqlAction::Select,
            rusqlite::hooks::AuthAction::Read { .. } => SqlAction::Read,
            rusqlite::hooks::AuthAction::Function { .. } => SqlAction::Function,
            _ => SqlAction::Other,
        };
        match authorize(action) {
            true => rusqlite::hooks::Authorization::Allow,
            false => rusqlite::hooks::Authorization::Deny,
        }
    }))
}

/// Calls `rusqlite::Statement::column_names`: the column names of the
/// statement's result, named by `result_columns` over the connection's
/// steps and the statement's text.
#[verifier::external_body]
fn sqlite_column_names(stmt: &rusqlite::Statement<'_>) -> (r: Vec<String>)
    ensures
        r@.map_values(|n: String| n@) == result_columns(statement_steps(*stmt), statement_sql(*stmt)),
{
    stmt.column_names().map(|s| s.to_string()).collect()
}

/// The SQL text of the statement a query result runs.
pub uninterp spec fn rows_sql(rows: rusqlite::Rows<'_>) -> Seq<char>;

/// The steps of the connection whose statement a query result runs, at the
/// time the statement was prepared.
pub uninterp spec fn rows_steps(rows: rusqlite::Rows<'_>) -> Seq<DbStep>;

/// Calls `rusqlite::Statement::query` with no parameters.  Whether it
/// succeeds is SQLite's decision; the result it gives runs that very
/// statement.
#[verifier::external_body]
fn sqlite_query<'s>(stmt: &'s mut rusqlite::Statement<'_>) -> (r: Result<rusqlite::Rows<'s>, rusqlite::Error>)
    ensures
        r matches Ok(rows) ==> rows_sql(rows) == statement_sql(*old(stmt)) && rows_steps(rows) == statement_steps(*old(stmt)),
{
    stmt.query([])
}

/// The rows a query result has yet to hand out, each as its cells (a real
/// number as the text Rust's `Display` gives it): what `Rows::next` will
/// return, one row per call, until it returns `None`.
pub uninterp spec fn rows_left(rows: rusqlite::Rows<'_>) -> Seq<Seq<CellValue>>;

/// The cells of a result row, as `rows_left` gives them.
pub uninterp spec fn row_cells(row: rusqlite::Row<'_>) -> Seq<CellValue>;

/// Calls `rusqlite::Rows::next`: the next row of the result, or `None` at
/// its end.  Whether a step fails is SQLite's decision; a row it gives is
/// the first of the rows left, which then are the rest.
#[verifier::external_body]
fn sqlite_next<'r, 's>(rows: &'r mut rusqlite::Rows<'s>) -> (r: Result<Option<&'r rusqlite::Row<'s>>, rusqlite::Error>)
    ensures
        r matches Ok(Some(row)) ==> rows_left(*old(rows)).len() > 0 && row_cells(*row) == rows_left(*old(rows))[0]
            && rows_left(*final(rows)) == rows_left(*old(rows)).drop_first(),
        r matches Ok(None) ==> rows_left(*old(rows)).len() == 0,
{
    rows.next()
}

/// Calls `rusqlite::Row::get_ref` for column `i`: the row's cell there (a
/// real number handed on as the text Rust's `Display` gives it), or an
/// error past the last column.
#[verifier::external_body]
fn sqlite_cell(row: &rusqlite::Row<'_>, i: usize) -> (r: Result<CellValue, rusqlite::Error>)
    ensures
        r is Ok <==> row_cells(*row).len() > i,
        r matches Ok(v) ==> v == row_cells(*row)[i as int],
{
    row.get_ref(i).map(|v| match v {
        rusqlite::types::ValueRef::Null => CellValue::Null,
        rusqlite::types::ValueRef::Integer(n) => CellValue::Integer(n),
        rusqlite::types::ValueRef::Real(f) => CellValue::Real(format!("{}", f)),
        rusqlite::types::ValueRef::Text(t) => CellValue::Text(t.to_vec()),
        rusqlite::types::ValueRef::Blob(b) => CellValue::Blob(b.to_vec()),
    })
}

/// `prefix` followed by the text of an SQLite error.
fn prefixed(prefix: &str, e: &rusqlite::Error) -> (r: String)
    ensures
        exists|msg: Seq<char>| r@ == prefix@ + msg,
{
    let mut out = chars_of(prefix);
    let text = sqlite_error_text(e);
    let tail = chars_of(text.as_str());
    append_chars(&mut out, &tail);
    string_of(&out)
}

/// The values of a `commits` row: hash, author, time and message.
pub open spec fn commit_row(c: Commit) -> Seq<SqlParam> {
    seq![SqlParam::Text(c.hash), SqlParam::Text(c.author), SqlParam::Text(c.time), SqlParam::Text(c.message)]
}

/// The values of a `file_changes` row: commit hash, path, status letter,
/// and the added and removed line counts as SQLite integers (taken modulo
/// 2^64, as `as i64` does).
pub open spec fn file_row(f: FileChangeRow) -> Seq<SqlParam> {
    seq![
        SqlParam::Text(f.commit_hash),
        SqlParam::Text(f.file_path),
        SqlParam::Text(f.status),
        SqlParam::Integer(f.additions as i64),
        SqlParam::Integer(f.deletions as i64),
    ]
}

/// The tables of the console's database.
pub open spec fn schema_sql() -> Seq<char> {
    "CREATE TABLE commits (hash TEXT COLLATE NOCASE, author TEXT COLLATE NOCASE, time TEXT COLLATE NOCASE, message TEXT COLLATE NOCASE); CREATE TABLE file_changes (commit_hash TEXT COLLATE NOCASE, file_path TEXT COLLATE NOCASE, status TEXT COLLATE NOCASE, additions INTEGER, deletions INTEGER);"@
}

/// The statement that adds a `commits` row.
pub open spec fn insert_commit_sql() -> Seq<char> {
    "INSERT INTO commits VALUES (?1, ?2, ?3, ?4)"@
}

/// The statement that adds a `file_changes` row.
pub open spec fn insert_file_sql() -> Seq<char> {
    "INSERT INTO file_changes VALUES (?1, ?2, ?3, ?4, ?5)"@
}

/// One executed statement per value list, in order.
pub open spec fn execute_steps(sql: Seq<char>, values: Seq<Seq<SqlParam>>) -> Seq<DbStep> {
    values.map_values(|v: Seq<SqlParam>| (DbStepKind::Execute, sql, v))
}

/// What the console does to a new connection before it runs a query: the
/// tables are created, each commit and then each changed file is added as
/// a row, and the read-only authorizer is installed.
pub open spec fn console_steps(commits: Seq<Commit>, files: Seq<FileChangeRow>) -> Seq<DbStep> {
    seq![(DbStepKind::Batch, schema_sql(), Seq::<SqlParam>::empty())]
        + execute_steps(insert_commit_sql(), commits.map_values(|c: Commit| commit_row(c)))
        + execute_steps(insert_file_sql(), files.map_values(|f: FileChangeRow| file_row(f)))
        + seq![(DbStepKind::ReadOnly, Seq::<char>::empty(), Seq::<SqlParam>::empty())]
}

/// The values bound to the four placeholders of a `commits` row.
pub fn commit_params(c: &Commit) -> (r: Vec<SqlParam>)
    ensures
        r@ == commit_row(*c),
{
    let mut r: Vec<SqlParam> = Vec::new();
    r.push(SqlParam::Text(c.hash.clone()));
    r.push(SqlParam::Text(c.author.clone()));
    r.push(SqlParam::Text(c.time.clone()));
    r.push(SqlParam::Text(c.message.clone()));
    r
}

/// The values bound to the five placeholders of a `file_changes` row.
pub fn file_params(f: &FileChangeRow) -> (r: Vec<SqlParam>)
    ensures
        r@ == file_row(*f),
{
    let mut r: Vec<SqlParam> = Vec::new();
    r.push(SqlParam::Text(f.commit_hash.clone()));
    r.push(SqlParam::Text(f.file_path.clone()));
    r.push(SqlParam::Text(f.status.clone()));
    r.push(SqlParam::Integer(f.additions as i64));
    r.push(SqlParam::Integer(f.deletions as i64));
    r
}

/// Whether `row` shows `cells`: one text per cell, each the text of its cell.
pub open spec fn shows_cells(row: Seq<String>, cells: Seq<CellValue>) -> bool {
    &&& row.len() == cells.len()
    &&& forall|j: int| 0 <= j < row.len() ==> (#[trigger] row[j])@ == cell_text_of(cells[j])
}

/// The texts of a result row, one per cell, in column order.
pub fn row_texts(cells: &Vec<CellValue>) -> (r: Vec<String>)
    ensures
        shows_cells(r@, cells@),
{
    let mut r: Vec<String> = Vec::new();
    let mut j: usize = 0;
    while j < cells.len()
        invariant
            j <= cells.len(),
            shows_cells(r@, cells@.subrange(0, j as int)),
        decreases cells.len() - j,
    {
        r.push(cell_text(&cells[j]));
        j = j + 1;
    }
    proof {
        assert(cells@.subrange(0, cells@.len() as int) =~= cells@);
    }
    r
}

/// The columns and rows of a query result, every cell as text.
pub struct QueryTable {
    pub columns: Vec<String>,
    pub rows: Vec<Vec<String>>,
}

/// Whether `e` is one of the messages the query console fails with.
pub open spec fn query_error(e: Seq<char>) -> bool {
    ||| exists|m: Seq<char>| e == "无法创建查询引擎: "@ + m
    ||| exists|m: Seq<char>| e == "初始化表失败: "@ + m
    ||| exists|m: Seq<char>| e == "写入数据失败: "@ + m
    ||| exists|m: Seq<char>| e == "无法设置查询权限: "@ + m
    ||| exists|m: Seq<char>| e == sql_error_message_of(m)
}

/// Checks that `sql` compiles, then executes it once per entry of
/// `values`, in order.  Whether a step fails is SQLite's decision; a
/// failure to compile and a failure to write each come back under their
/// own message, and on success each execution is one step of `conn`.
fn insert_rows(conn: &mut rusqlite::Connection, sql: &str, values: &Vec<Vec<SqlParam>>) -> (r: Result<(), String>)
    ensures
        r matches Err(e) ==> {
            ||| exists|m: Seq<char>| e@ == "初始化表失败: "@ + m
            ||| values@.len() > 0 && exists|m: Seq<char>| e@ == "写入数据失败: "@ + m
        },
        r is Ok ==> db_steps(*final(conn)) == db_steps(*old(conn)) + execute_steps(
            sql@,
            values@.map_values(|v: Vec<SqlParam>| v@),
        ),
{
    match sqlite_prepare(conn, sql) {
        Ok(_) => {},
        Err(e) => return Err(prefixed("初始化表失败: ", &e)),
    }
    let ghost start = db_steps(*conn);
    let ghost vs = values@.map_values(|v: Vec<SqlParam>| v@);
    let mut i: usize = 0;
    while i < values.len()
        invariant
            i <= values@.len(),
            vs == values@.map_values(|v: Vec<SqlParam>| v@),
            db_steps(*conn) == start + execute_steps(sql@, vs.take(i as int)),
        decreases values.len() - i,
    {
        let ghost before = db_steps(*conn);
        match sqlite_execute(conn, sql, &values[i]) {
            Ok(_) => {},
            Err(e) => return Err(prefixed("写入数据失败: ", &e)),
        }
        proof {
            assert(vs.take(i + 1) =~= vs.take(i as int).push(values@[i as int]@));
            assert(execute_steps(sql@, vs.take(i + 1)) =~= execute_steps(sql@, vs.take(i as int)).push(
                (DbStepKind::Execute, sql@, values@[i as int]@),
            ));
            assert(db_steps(*conn) =~= start + execute_steps(sql@, vs.take(i + 1)));
        }
        i = i + 1;
    }
    assert(vs.take(values@.len() as int) =~= vs);
    Ok(())
}

/// Whether `row` shows the first `width` of `cells`, one text per cell.
pub open spec fn shows_row(row: Vec<String>, cells: Seq<CellValue>, width: usize) -> bool {
    &&& cells.len() >= width
    &&& row@.len() == width
    &&& shows_cells(row@, cells.take(width as int))
}

/// Reads every row `rows` has left, in order, showing the first `width`
/// cells of each as text.  Whether a step fails is SQLite's decision; a
/// failure comes back as the console's message for that SQLite error.
fn fetch_rows(rows: &mut rusqlite::Rows<'_>, width: usize) -> (r: Result<Vec<Vec<String>>, String>)
    ensures
        r matches Err(e) ==> exists|m: Seq<char>| e@ == sql_error_message_of(m),
        r matches Ok(out) ==> out@.len() == rows_left(*old(rows)).len(),
        r matches Ok(out) ==> forall|j: int| 0 <= j < out@.len() ==> shows_row(#[trigger] out@[j], rows_left(*old(rows))[j], width),
{
    let ghost init = rows_left(*rows);
    let mut out: Vec<Vec<String>> = Vec::new();
    loop
        invariant_except_break
            rows_left(*rows) == init.skip(out@.len() as int),
        invariant
            out@.len() <= init.len(),
            forall|j: int| 0 <= j < out@.len() ==> shows_row(#[trigger] out@[j], init[j], width),
        ensures
            out@.len() == init.len(),
        decreases init.len() - out@.len(),
    {
        let ghost left = rows_left(*rows);
        let row = match sqlite_next(rows) {
            Ok(Some(row)) => row,
            Ok(None) => {
                assert(init.skip(out@.len() as int).len() == 0);
                break;
            },
            Err(e) => return Err(format_sql_error(&e)),
        };
        let ghost this = left[0];
        let mut cells: Vec<CellValue> = Vec::new();
        let mut c: usize = 0;
        while c < width
            invariant
                c <= width,
                c <= this.len(),
                this == row_cells(*row),
                cells@ == this.take(c as int),
            decreases width - c,
        {
            match sqlite_cell(row, c) {
                Ok(v) => cells.push(v),
                Err(e) => return Err(format_sql_error(&e)),
            }
            assert(cells@ =~= this.take(c + 1));
            c = c + 1;
        }
        let texts = row_texts(&cells);
        let ghost before = out@;
        out.push(texts);
        proof {
            let b = before.len() as int;
            assert(init[b] == this) by {
                assert(left == init.skip(b));
            }
            assert(cells@ == this.take(width as int));
            assert(shows_cells(texts@, cells@));
            assert forall|j: int| 0 <= j < out@.len() implies shows_row(#[trigger] out@[j], init[j], width) by {
                if j < b {
                    assert(out@[j] == before[j]);
                } else {
                    assert(out@[j] == texts);
                }
            }
            assert(init.skip(out@.len() as int) =~= left.drop_first());
        }
    }
    Ok(out)
}

/// Whether `handed` is what a result of `query`, run on a connection built
/// by `steps`, handed out: SQLite's answer, which may differ from run to
/// run (`random()`, the clock).
pub open spec fn is_answer(steps: Seq<DbStep>, query: Seq<char>, handed: Seq<Seq<CellValue>>) -> bool {
    exists|rs: rusqlite::Rows<'static>| rows_steps(rs) == steps && rows_sql(rs) == query && #[trigger] rows_left(rs) == handed
}

/// Whether `rows` shows the rows `handed`, all of them and in order, each
/// by its first `width` cells.
pub open spec fn shows_answer(rows: Seq<Vec<String>>, handed: Seq<Seq<CellValue>>, width: int) -> bool {
    &&& rows.len() == handed.len()
    &&& forall|j: int| 0 <= j < rows.len() ==> shows_row(#[trigger] rows[j], handed[j], width as usize)
}

/// Whether every row of `t` has one text per column.
pub open spec fn one_text_per_column(t: QueryTable) -> bool {
    forall|i: int| 0 <= i < t.rows@.len() ==> (#[trigger] t.rows@[i])@.len() == t.columns@.len()
}

/// Whether `t` shows, by the first cells of each, all the rows and only the
/// rows that a result of `query` on a connection built by `steps` handed
/// out, in order, one text per column.
pub open spec fn answers_query(t: QueryTable, steps: Seq<DbStep>, query: Seq<char>) -> bool {
    exists|handed: Seq<Seq<CellValue>>|
        is_answer(steps, query, handed) && #[trigger] shows_answer(t.rows@, handed, t.columns@.len() as int)
}

/// Prepares and runs `query` on `conn`: the result's columns are SQLite's
/// for that query on that connection, and its rows are all the rows a
/// result of that query handed out, in order, one text per column.
fn answer(conn: &rusqlite::Connection, query: &str) -> (r: Result<QueryTable, String>)
    ensures
        r matches Err(e) ==> exists|m: Seq<char>| e@ == sql_error_message_of(m),
        r matches Ok(t) ==> t.columns@.map_values(|n: String| n@) == result_columns(db_steps(*conn), query@),
        r matches Ok(t) ==> answers_query(t, db_steps(*conn), query@),
        r matches Ok(t) ==> one_text_per_column(t),
{
    let mut stmt = match sqlite_prepare(conn, query) {
        Ok(s) => s,
        Err(e) => return Err(format_sql_error(&e)),
    };
    let columns = sqlite_column_names(&stmt);
    let width = columns.len();
    let mut rows = match sqlite_query(&mut stmt) {
        Ok(r) => r,
        Err(e) => return Err(format_sql_error(&e)),
    };
    let ghost r0 = rows;
    let ghost init = rows_left(rows);
    let out = match fetch_rows(&mut rows, width) {
        Ok(out) => out,
        Err(e) => return Err(e),
    };
    let table = QueryTable { columns, rows: out };
    assert(is_answer(db_steps(*conn), query@, init));
    assert(shows_answer(table.rows@, init, table.columns@.len() as int));
    assert(answers_query(table, db_steps(*conn), query@));
    assert(one_text_per_column(table)) by {
        assert forall|i: int| 0 <= i < table.rows@.len() implies (#[trigger] table.rows@[i])@.len() == table.columns@.len() by {
            assert(shows_row(out@[i], init[i], width));
        }
    }
    Ok(table)
}

/// Opens an in-memory database, creates the console's tables, adds a row
/// per commit and per changed file, and installs the read-only authorizer.
/// Whether a step fails is SQLite's decision; on success the connection has
/// gone through exactly `console_steps`.
fn load_tables(commits: &Vec<Commit>, files: &Vec<FileChangeRow>) -> (r: Result<rusqlite::Connection, String>)
    ensures
        r matches Err(e) ==> query_error(e@),
        r matches Ok(c) ==> db_steps(c) == console_steps(commits@, files@),
{
    let mut conn = match sqlite_open() {
        Ok(c) => c,
        Err(e) => return Err(prefixed("无法创建查询引擎: ", &e)),
    };
    let schema = "CREATE TABLE commits (hash TEXT COLLATE NOCASE, author TEXT COLLATE NOCASE, time TEXT COLLATE NOCASE, message TEXT COLLATE NOCASE); CREATE TABLE file_changes (commit_hash TEXT COLLATE NOCASE, file_path TEXT COLLATE NOCASE, status TEXT COLLATE NOCASE, additions INTEGER, deletions INTEGER);";
    match sqlite_execute_batch(&mut conn, schema) {
        Ok(()) => {},
        Err(e) => return Err(prefixed("初始化表失败: ", &e)),
    }

    let mut commit_values: Vec<Vec<SqlParam>> = Vec::new();
    let mut i: usize = 0;
    while i < commits.len()
        invariant
            i <= commits@.len(),
            commit_values@.len() == i,
            forall|j: int| 0 <= j < i ==> (#[trigger] commit_values@[j])@ == commit_row(commits@[j]),
        decreases commits.len() - i,
    {
        commit_values.push(commit_params(&commits[i]));
        i = i + 1;
    }
    let ghost cv = commit_values@.map_values(|v: Vec<SqlParam>| v@);
    assert(cv =~= commits@.map_values(|c: Commit| commit_row(c)));
    insert_rows(&mut conn, "INSERT INTO commits VALUES (?1, ?2, ?3, ?4)", &commit_values)?;

    let mut file_values: Vec<Vec<SqlParam>> = Vec::new();
    let mut k: usize = 0;
    while k < files.len()
        invariant
            k <= files@.len(),
            file_values@.len() == k,
            forall|j: int| 0 <= j < k ==> (#[trigger] file_values@[j])@ == file_row(files@[j]),
        decreases files.len() - k,
    {
        file_values.push(file_params(&files[k]));
        k = k + 1;
    }
    let ghost fv = file_values@.map_values(|v: Vec<SqlParam>| v@);
    assert(fv =~= files@.map_values(|f: FileChangeRow| file_row(f)));
    insert_rows(&mut conn, "INSERT INTO file_changes VALUES (?1, ?2, ?3, ?4, ?5)", &file_values)?;

    match sqlite_read_only(&mut conn) {
        Ok(()) => {},
        Err(e) => return Err(prefixed("无法设置查询权限: ", &e)),
    }
    assert(db_steps(conn) =~= console_steps(commits@, files@));
    Ok(conn)

}

/// Runs a console query over the commits and changed files: the tables are
/// created and filled, the read-only authorizer is installed, and the query
/// (with `CONTAINS` rewritten) is prepared and run; each row comes back
/// with one text per column.  The result columns are SQLite's for that
/// query on those tables, and the rows are all the rows, in order, that a
/// result of that query on those tables handed out.  Which rows (they may
/// hold `random()` or the clock) and which failures come back is SQLite's
/// decision; a failure is one of the console's messages.
pub fn run_query(commits: &Vec<Commit>, files: &Vec<FileChangeRow>, sql: &str) -> (r: Result<QueryTable, String>)
    ensures
        r matches Err(e) ==> query_error(e@),
        r matches Ok(t) ==> t.columns@.map_values(|n: String| n@) == result_columns(
            console_steps(commits@, files@),
            rewritten(sql@),
        ),
        r matches Ok(t) ==> answers_query(t, console_steps(commits@, files@), rewritten(sql@)),
        r matches Ok(t) ==> one_text_per_column(t),
{
    let query = rewrite_contains(sql);
    let conn = load_tables(commits, files)?;
    answer(&conn, query.as_str())
}

} // verus!
