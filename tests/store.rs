use db_sample::action::{parse_line, Action};
use db_sample::date::Date;
use db_sample::db::{print_range, KeyError, ProfileDB};
use db_sample::profile::Profile;

fn record(id: u32, name: &str, y: u32, home: &str) -> Profile {
    Profile::new(id, name.to_string(), Date::new(y, 1, 1), home.to_string(), format!("c{}", id))
}

fn ids(db: &ProfileDB) -> Vec<u32> {
    (0..db.len()).map(|i| db.get(i).id).collect()
}

fn store() -> ProfileDB {
    let mut db = ProfileDB::new();
    db.push(record(3, "b", 2001, "x"));
    db.push(record(1, "a", 2000, "y"));
    db.push(record(2, "b", 1999, "x"));
    db.push(record(4, "a", 2002, "x"));
    db
}

#[test]
fn push_grows_by_one() {
    let mut db = ProfileDB::new();
    assert_eq!(db.len(), 0);
    Action::append(&mut db, record(1, "a", 2000, "y"));
    assert_eq!(db.len(), 1);
    assert_eq!(Action::count(&db), "1 profile(s)");
}

#[test]
fn sort_is_stable() {
    let mut db = store();
    assert_eq!(db.sort(2), Ok(()));
    assert_eq!(ids(&db), vec![1, 4, 3, 2]);
    let mut db = store();
    assert_eq!(db.sort(4), Ok(()));
    assert_eq!(ids(&db), vec![3, 2, 4, 1]);
}

#[test]
fn sort_by_every_key() {
    let mut db = store();
    assert_eq!(db.sort(1), Ok(()));
    assert_eq!(ids(&db), vec![1, 2, 3, 4]);
    assert_eq!(db.sort(3), Ok(()));
    assert_eq!(ids(&db), vec![2, 1, 3, 4]);
    assert_eq!(db.sort(5), Ok(()));
    assert_eq!(ids(&db), vec![1, 2, 3, 4]);
}

#[test]
fn sort_twice_is_sort_once() {
    let mut db = store();
    db.sort(2).unwrap();
    let once = ids(&db);
    db.sort(2).unwrap();
    assert_eq!(ids(&db), once);
}

#[test]
fn sort_refuses_unknown_key() {
    let mut db = store();
    assert_eq!(db.sort(0), Err(KeyError(0)));
    assert_eq!(Action::sort(&mut db, 6), Err(KeyError(6)));
    assert_eq!(ids(&db), vec![3, 1, 2, 4]);
}

#[test]
fn print_ranges() {
    assert_eq!(print_range(4, 0), (0, 4));
    assert_eq!(print_range(4, 2), (0, 2));
    assert_eq!(print_range(4, 9), (0, 4));
    assert_eq!(print_range(4, -1), (3, 4));
    assert_eq!(print_range(4, -9), (0, 4));
    assert_eq!(print_range(0, -2147483648), (0, 0));
    let db = store();
    assert_eq!(Action::print(&db, 0).len(), 4);
    let head = Action::print(&db, 2);
    assert_eq!(head.len(), 2);
    assert_eq!(head[0], db.get(0).to_string());
    assert_eq!(head[1], db.get(1).to_string());
    let tail = Action::print(&db, -1);
    assert_eq!(tail, vec![db.get(3).to_string()]);
    assert_eq!(Action::print(&db, -10).len(), 4);
}

#[test]
fn find_in_store_order() {
    let db = store();
    let hits = Action::find(&db, "x");
    assert_eq!(hits, vec![db.get(0).to_string(), db.get(2).to_string(), db.get(3).to_string()]);
    assert!(Action::find(&db, "xy").is_empty());
    assert!(Action::find(&db, "").is_empty());
    assert_eq!(db.find("c2"), vec![db.get(2).to_string()]);
}

#[test]
fn store_file_form() {
    let mut db = ProfileDB::new();
    assert_eq!(db.to_csv(), "");
    db.push(record(1, "a", 2000, "y"));
    db.push(record(2, "b", 1999, "x"));
    assert_eq!(db.to_csv(), "1,a,2000-1-1,y,c1\n2,b,1999-1-1,x,c2\n");
}

#[test]
fn classify_commands() {
    assert!(matches!(parse_line("%Q"), Action::Quit));
    assert!(matches!(parse_line("%C"), Action::Count));
    assert!(matches!(parse_line("%P -3"), Action::Print(-3)));
    assert!(matches!(parse_line("%P 0"), Action::Print(0)));
    assert!(matches!(parse_line("%P +5"), Action::Print(5)));
    assert!(matches!(parse_line("%P -2147483648"), Action::Print(i32::MIN)));
    assert!(matches!(parse_line("%P 2147483647"), Action::Print(i32::MAX)));
    assert!(matches!(parse_line("%S\t3 "), Action::Sort(3)));
    assert!(matches!(parse_line("%S 2"), Action::Sort(2)));
    match parse_line("%R  sub/file.csv ") {
        Action::Read(p) => assert_eq!(p, "sub/file.csv"),
        _ => panic!("not a read"),
    }
    match parse_line("%W out.csv") {
        Action::Write(p) => assert_eq!(p, "out.csv"),
        _ => panic!("not a write"),
    }
    match parse_line("%F hello world ") {
        Action::Find(w) => assert_eq!(w, "hello world"),
        _ => panic!("not a find"),
    }
}

#[test]
fn classify_errors() {
    match parse_line("%P x") {
        Action::Error(m) => assert_eq!(m, "illegal command format"),
        _ => panic!("not an error"),
    }
    match parse_line("%P 2147483648") {
        Action::Error(m) => assert_eq!(m, "illegal command format"),
        _ => panic!("not an error"),
    }
    match parse_line("%S 256") {
        Action::Error(m) => assert_eq!(m, "illegal command format"),
        _ => panic!("not an error"),
    }
    match parse_line("%X") {
        Action::Error(m) => assert_eq!(m, "unknown command"),
        _ => panic!("not an error"),
    }
    match parse_line("%") {
        Action::Error(m) => assert_eq!(m, "unknown command"),
        _ => panic!("not an error"),
    }
    match parse_line("1,2,3") {
        Action::Error(m) => assert_eq!(m, "illegal CSV format"),
        _ => panic!("not an error"),
    }
    match parse_line("1,nom,2018-6-28,okayama,hello!") {
        Action::Append(p) => assert_eq!(p.name, "nom"),
        _ => panic!("not an append"),
    }
}
