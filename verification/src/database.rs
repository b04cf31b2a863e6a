//! The versions of the database schema, and the statements that lead from
//! one to the next. The caller reads the stored version, runs the statements
//! in one transaction and stores the new version where it differs.

use vstd::prelude::*;

verus! {

/// Name of the table of words.
pub const WORD_TABLE: &'static str = "word";

/// Name of the table of books.
pub const BOOK_TABLE: &'static str = "book";

/// The version of the schema that this library works on.
pub const SCHEMA_VERSION: i32 = 3;

/// From version 0: a table of words that was there is dropped.
pub const DROP_WORDS: &'static str = "DROP TABLE IF EXISTS word";

/// From version 0: the table of words.
pub const CREATE_WORDS: &'static str =
    "CREATE TABLE word (\n                id          INTEGER PRIMARY KEY AUTOINCREMENT,\n                name        TEXT    NOT NULL,\n                create_time INTEGER NOT NULL\n            );";

/// From version 0: no word twice.
pub const INDEX_WORD_NAME: &'static str = "CREATE UNIQUE INDEX word_name ON word (name)";

/// From version 0: words are found by the time they were added.
pub const INDEX_WORD_TIME: &'static str = "CREATE INDEX word_create_time ON word (create_time);";

/// From version 1: a word has a degree of familiarity.
pub const ADD_FAMILIAR: &'static str =
    "ALTER TABLE word ADD COLUMN \"familiar\" INTEGER NOT NULL DEFAULT 0";

/// From version 2: a word may stand in several books.
pub const DROP_WORD_NAME_INDEX: &'static str = "DROP INDEX IF EXISTS word_name";

/// From version 2: a word belongs to a book.
pub const ADD_BOOK_ID: &'static str =
    "ALTER TABLE word ADD COLUMN \"book_id\" INTEGER NOT NULL DEFAULT 0";

/// From version 2: no word twice in one book.
pub const INDEX_WORD_BOOK_NAME: &'static str =
    "CREATE UNIQUE INDEX word_book_id_name ON word (book_id, name)";

/// From version 2: a table of books that was there is dropped.
pub const DROP_BOOKS: &'static str = "DROP TABLE IF EXISTS book";

/// From version 2: the table of books.
pub const CREATE_BOOKS: &'static str =
    "CREATE TABLE book (\n                id          INTEGER PRIMARY KEY AUTOINCREMENT,\n                name        TEXT    NOT NULL,\n                create_time INTEGER NOT NULL\n            )";

/// The statements of a plan, each as a sequence of characters.
pub open spec fn texts(statements: Seq<String>) -> Seq<Seq<char>> {
    statements.map_values(|statement: String| statement@)
}

/// The version can be upgraded: it is one of those before the version of the
/// library.
pub open spec fn upgradable(version: i32) -> bool {
    0 <= version < SCHEMA_VERSION
}

/// The statements that lead from the version `from` to the next one; none
/// where the version cannot be upgraded.
pub open spec fn step_statements(from: i32) -> Seq<Seq<char>> {
    if from == 0 {
        seq![DROP_WORDS@, CREATE_WORDS@, INDEX_WORD_NAME@, INDEX_WORD_TIME@]
    } else if from == 1 {
        seq![ADD_FAMILIAR@]
    } else if from == 2 {
        seq![
            DROP_WORD_NAME_INDEX@,
            ADD_BOOK_ID@,
            INDEX_WORD_BOOK_NAME@,
            DROP_BOOKS@,
            CREATE_BOOKS@,
        ]
    } else {
        Seq::empty()
    }
}

/// The statements that upgrade a database of the stored version: the steps
/// from that version up to the version of the library, in ascending order;
/// none for a version that cannot be upgraded.
pub open spec fn planned_statements(version: i32) -> Seq<Seq<char>>
    decreases SCHEMA_VERSION - version,
{
    if upgradable(version) {
        step_statements(version) + planned_statements((version + 1) as i32)
    } else {
        Seq::empty()
    }
}

/// The version that the upgrade leaves: that of the library for a version
/// that can be upgraded, else the stored version as it is.
pub open spec fn planned_version(version: i32) -> i32 {
    if upgradable(version) {
        SCHEMA_VERSION
    } else {
        version
    }
}

/// Appends the statements of one step to a plan.
fn push_step(plan: &mut Vec<String>, from: i32)
    ensures
        texts(final(plan)@) == texts(old(plan)@) + step_statements(from),
{
    if from == 0 {
        plan.push(DROP_WORDS.to_owned());
        plan.push(CREATE_WORDS.to_owned());
        plan.push(INDEX_WORD_NAME.to_owned());
        plan.push(INDEX_WORD_TIME.to_owned());
    } else if from == 1 {
        plan.push(ADD_FAMILIAR.to_owned());
    } else if from == 2 {
        plan.push(DROP_WORD_NAME_INDEX.to_owned());
        plan.push(ADD_BOOK_ID.to_owned());
        plan.push(INDEX_WORD_BOOK_NAME.to_owned());
        plan.push(DROP_BOOKS.to_owned());
        plan.push(CREATE_BOOKS.to_owned());
    }
    assert(texts(plan@) =~= texts(old(plan)@) + step_statements(from));
}

/// Plans the upgrade of a database of the stored version: the statements to
/// run, in order, and the version to store afterwards. A version that the
/// library does not know, below 0 or from its own on, is left alone.
pub fn upgrade_plan(version: i32) -> (plan: (Vec<String>, i32))
    ensures
        texts(plan.0@) == planned_statements(version),
        plan.1 == planned_version(version),
{
    let mut statements: Vec<String> = Vec::new();
    let mut at: i32 = version;
    assert(texts(statements@) =~= Seq::empty());
    while 0 <= at && at < SCHEMA_VERSION
        invariant
            at == version || (upgradable(version) && version < at <= SCHEMA_VERSION),
            texts(statements@) + planned_statements(at) == planned_statements(version),
        decreases SCHEMA_VERSION - at,
    {
        let ghost before = texts(statements@);
        push_step(&mut statements, at);
        assert((before + step_statements(at)) + planned_statements((at + 1) as i32) =~= before + (
        step_statements(at) + planned_statements((at + 1) as i32)));
        at = at + 1;
    }
    assert(texts(statements@) + Seq::<Seq<char>>::empty() =~= texts(statements@));
    (statements, at)
}

/// An upgraded database needs no upgrade: the plan for the version that an
/// upgrade leaves has no statements and leaves that version.
pub proof fn lemma_upgrade_settles(version: i32)
    ensures
        planned_statements(planned_version(version)) == Seq::<Seq<char>>::empty(),
        planned_version(planned_version(version)) == planned_version(version),
{
}

/// The plan for a version that can be upgraded is the step from that version
/// and then the plan for the next one, so the steps come in ascending order
/// and none is left out.
pub proof fn lemma_plan_goes_step_by_step(version: i32)
    requires
        upgradable(version),
    ensures
        planned_statements(version) == step_statements(version) + planned_statements(
            (version + 1) as i32,
        ),
        planned_statements(2) == step_statements(2),
        planned_statements(1) == step_statements(1) + step_statements(2),
        planned_statements(0) == step_statements(0) + step_statements(1) + step_statements(2),
{
    reveal_with_fuel(planned_statements, 4);
    assert(planned_statements(2) =~= step_statements(2));
    assert(planned_statements(1) =~= step_statements(1) + step_statements(2));
    assert(planned_statements(0) =~= step_statements(0) + step_statements(1) + step_statements(2));
}

} // verus!
