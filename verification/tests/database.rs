use beluga::database::{upgrade_plan, BOOK_TABLE, SCHEMA_VERSION, WORD_TABLE};

fn create_table(table: &str, end: &str) -> String {
    format!(
        "CREATE TABLE {} (
                id          INTEGER PRIMARY KEY AUTOINCREMENT,
                name        TEXT    NOT NULL,
                create_time INTEGER NOT NULL
            ){}",
        table, end
    )
}

fn step_0() -> Vec<String> {
    vec![
        format!("DROP TABLE IF EXISTS {}", WORD_TABLE),
        create_table(WORD_TABLE, ";"),
        format!("CREATE UNIQUE INDEX word_name ON {} (name)", WORD_TABLE),
        format!("CREATE INDEX word_create_time ON {} (create_time);", WORD_TABLE),
    ]
}

fn step_1() -> Vec<String> {
    vec![format!("ALTER TABLE {} ADD COLUMN \"familiar\" INTEGER NOT NULL DEFAULT 0", WORD_TABLE)]
}

fn step_2() -> Vec<String> {
    vec![
        "DROP INDEX IF EXISTS word_name".to_string(),
        format!("ALTER TABLE {} ADD COLUMN \"book_id\" INTEGER NOT NULL DEFAULT 0", WORD_TABLE),
        format!("CREATE UNIQUE INDEX word_book_id_name ON {} (book_id, name)", WORD_TABLE),
        format!("DROP TABLE IF EXISTS {}", BOOK_TABLE),
        create_table(BOOK_TABLE, ""),
    ]
}

#[test]
fn tables_and_schema_version_are_as_stored() {
    assert_eq!((WORD_TABLE, BOOK_TABLE, SCHEMA_VERSION), ("word", "book", 3));
}

#[test]
fn new_database_goes_through_every_step_in_order() {
    let (statements, version) = upgrade_plan(0);
    let expected: Vec<String> = step_0().into_iter().chain(step_1()).chain(step_2()).collect();
    assert_eq!(statements, expected);
    assert_eq!(statements.len(), 10);
    assert_eq!(version, 3);
}

#[test]
fn database_of_version_one_takes_the_last_two_steps() {
    let (statements, version) = upgrade_plan(1);
    let expected: Vec<String> = step_1().into_iter().chain(step_2()).collect();
    assert_eq!(statements, expected);
    assert_eq!(version, 3);
}

#[test]
fn database_of_version_two_takes_the_last_step() {
    let (statements, version) = upgrade_plan(2);
    assert_eq!(statements, step_2());
    assert_eq!(version, 3);
}

#[test]
fn database_of_any_other_version_is_left_alone() {
    for stored in [3, 4, 100, i32::MAX, -1, -3, i32::MIN] {
        let (statements, version) = upgrade_plan(stored);
        assert_eq!(statements, Vec::<String>::new(), "for {}", stored);
        assert_eq!(version, stored);
    }
}

#[test]
fn upgraded_database_needs_no_upgrade() {
    for stored in [0, 1, 2, 3, 7, -2] {
        let (_, version) = upgrade_plan(stored);
        assert_eq!(upgrade_plan(version), (vec![], version));
    }
}
