//! Typed rows of versioned tables.

use versioning::orm::{BranchName, DiffKind, OrmError, Transaction, VersionedDb, VersionedRow};
use versioning::values::{VcRow, VcValue};

#[derive(Debug, Clone, PartialEq, Eq)]
struct User {
    id: i64,
    name: String,
}

impl VersionedRow for User {
    type Model = ();

    fn table() -> &'static str {
        "users"
    }

    fn columns() -> Vec<String> {
        vec!["id".to_string(), "name".to_string()]
    }

    fn pk() -> Vec<String> {
        vec!["id".to_string()]
    }

    fn into_row(&self) -> VcRow {
        VcRow::new(vec![
            VcValue::Integer(self.id),
            VcValue::Text(self.name.clone()),
        ])
    }

    fn from_row(row: &VcRow) -> Result<Self, OrmError> {
        if row.values.len() != 2 {
            return Err(OrmError::Decode("expected 2 columns".into()));
        }
        let id = match row.values[0] {
            VcValue::Integer(v) => v,
            _ => return Err(OrmError::Decode("id not integer".into())),
        };
        let name = match &row.values[1] {
            VcValue::Text(s) => s.clone(),
            _ => return Err(OrmError::Decode("name not text".into())),
        };
        Ok(User { id, name })
    }
}

#[derive(Debug, Clone, PartialEq, Eq)]
struct Post {
    id: i64,
    title: String,
}

impl VersionedRow for Post {
    type Model = ();

    fn table() -> &'static str {
        "posts"
    }

    fn columns() -> Vec<String> {
        vec!["id".to_string(), "title".to_string()]
    }

    fn pk() -> Vec<String> {
        vec!["id".to_string()]
    }

    fn into_row(&self) -> VcRow {
        VcRow::new(vec![
            VcValue::Integer(self.id),
            VcValue::Text(self.title.clone()),
        ])
    }
    fn from_row(row: &VcRow) -> Result<Self, OrmError> {
        let id = match row.values[0] {
            VcValue::Integer(v) => v,
            _ => return Err(OrmError::Decode("id".into())),
        };
        let title = match &row.values[1] {
            VcValue::Text(s) => s.clone(),
            _ => return Err(OrmError::Decode("title".into())),
        };
        Ok(Post { id, title })
    }
}

fn db() -> VersionedDb {
    let mut db = VersionedDb::new("main").unwrap();
    db.store.config_set("user.name", "Ada");
    db.store.config_set("user.email", "ada@example.com");
    db
}

#[test]
fn orm_branch_name_borrows_without_clone() {
    let s = "main";
    let name = BranchName::borrowed(s).unwrap();
    assert_eq!(name.as_str(), "main");
    let owned = name.into_owned();
    assert_eq!(owned.as_str(), "main");
    assert!(BranchName::borrowed("a/b").is_err());
    assert!(BranchName::borrowed("").is_err());
}

#[test]
fn orm_insert_get_iter_borrowed() {
    let mut db = db();
    db.table::<User>()
        .insert(&User {
            id: 1,
            name: "Ada".into(),
        })
        .unwrap();
    db.table::<User>()
        .insert(&User {
            id: 2,
            name: "Bob".into(),
        })
        .unwrap();
    assert_eq!(db.table::<User>().len(), 2);
    let u = db
        .table::<User>()
        .get(&vec![VcValue::Integer(1)])
        .unwrap();
    assert_eq!(u.name, "Ada");
    let names: Vec<String> = db.table::<User>().iter().into_iter().map(|u| u.name).collect();
    assert_eq!(names, vec!["Ada", "Bob"]);
}

#[test]
fn orm_history_is_typed_and_mem_efficient() {
    let mut db = db();
    db.table::<User>()
        .insert(&User {
            id: 1,
            name: "a".into(),
        })
        .unwrap();
    let c1 = db.commit_all("c1").unwrap();
    db.table::<User>()
        .insert(&User {
            id: 2,
            name: "b".into(),
        })
        .unwrap();
    let c2 = db.commit_all("c2").unwrap();
    let at_c1: Vec<User> = db.table::<User>().iter_at(c1);
    assert_eq!(at_c1.len(), 1);
    assert_eq!(at_c1[0].id, 1);
    let diffs = db.table::<User>().diff_at(c1, c2);
    assert_eq!(diffs.len(), 1);
    assert_eq!(diffs[0].kind, DiffKind::Added);
    assert_eq!(diffs[0].row.id, 2);
}

#[test]
fn orm_transaction_rollback_on_drop() {
    let mut db = db();
    {
        let mut tx = Transaction::begin(&mut db);
        tx.table::<User>()
            .insert(&User {
                id: 1,
                name: "tx".into(),
            })
            .unwrap();
        // Dropped without a commit.
    }
    assert!(db.table::<User>().is_empty());
    {
        let mut tx = Transaction::begin(&mut db);
        tx.table::<User>()
            .insert(&User {
                id: 1,
                name: "ok".into(),
            })
            .unwrap();
        tx.commit("c1").unwrap();
    }
    assert_eq!(db.table::<User>().len(), 1);
}

#[test]
fn orm_branch_handle_borrows_db() {
    let mut db = db();
    db.create_branch(BranchName::borrowed("feature").unwrap())
        .unwrap();
    {
        let mut br = db.branch_handle(BranchName::borrowed("feature").unwrap()).unwrap();
        br.table::<Post>()
            .insert(&Post {
                id: 1,
                title: "feat".into(),
            })
            .unwrap();
        assert_eq!(br.name(), "feature");
    }
    assert_eq!(db.branch_name(), Some("main"));
}

#[test]
fn orm_multiple_tables_borrow_checked() {
    let mut db = db();
    db.table::<User>()
        .insert(&User {
            id: 1,
            name: "Ada".into(),
        })
        .unwrap();
    db.table::<Post>()
        .insert(&Post {
            id: 1,
            title: "Hello".into(),
        })
        .unwrap();
    assert_eq!(db.table::<User>().len(), 1);
    assert_eq!(db.table::<Post>().len(), 1);
    // Delete via typed PK slice.
    assert!(db.table::<User>().delete(&vec![VcValue::Integer(1)]));
    assert!(db.table::<User>().is_empty());
}

#[test]
fn orm_delete_borrowed_pk_slice() {
    let mut db = db();
    db.table::<User>()
        .insert(&User {
            id: 1,
            name: "Ada".into(),
        })
        .unwrap();
    let pk: Vec<VcValue> = vec![VcValue::Integer(1)];
    assert!(db.table::<User>().delete(&pk));
    assert!(!db.table::<User>().delete(&pk));
}
