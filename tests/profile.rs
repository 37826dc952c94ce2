use db_sample::action::parse_csv;
use db_sample::date::Date;
use db_sample::profile::{FieldError, Profile};
use std::cmp::Ordering;

fn sample(id: u32, name: &str, birthday: Date, home: &str, comment: &str) -> Profile {
    Profile::new(id, name.to_string(), birthday, home.to_string(), comment.to_string())
}

#[test]
fn parse_valid_csv() {
    let p = parse_csv("1,nom,2018-6-28,okayama,hello!").unwrap();
    assert_eq!(p.id, 1);
    assert_eq!(p.name, "nom");
    assert_eq!(p.birthday, Date::new(2018, 6, 28));
    assert_eq!(p.home, "okayama");
    assert_eq!(p.comment, "hello!");
}

#[test]
fn csv_field_errors() {
    assert_eq!(parse_csv("1,nom,2018-6-28,okayama").unwrap_err(), FieldError::Count);
    assert_eq!(parse_csv("1,nom,2018-6-28,okayama,a,b").unwrap_err(), FieldError::Count);
    assert_eq!(parse_csv("x,nom,2018-6-28,okayama,hi").unwrap_err(), FieldError::Id);
    assert_eq!(parse_csv("-1,nom,2018-6-28,okayama,hi").unwrap_err(), FieldError::Id);
    assert_eq!(parse_csv("1,nom,2018/6/28,okayama,hi").unwrap_err(), FieldError::Birthday);
}

#[test]
fn from_vector_builds_record() {
    let p = Profile::from_vector(vec!["7", "a b", "2000-1-2", "kyoto", ""]).unwrap();
    assert_eq!(p.id, 7);
    assert_eq!(p.name, "a b");
    assert_eq!(p.birthday, Date::new(2000, 1, 2));
    assert_eq!(p.home, "kyoto");
    assert_eq!(p.comment, "");
    assert_eq!(Profile::from_vector(vec!["7", "a"]).unwrap_err(), FieldError::Count);
}

#[test]
fn line_forms() {
    let p = sample(1, "nom", Date::new(2018, 6, 28), "okayama", "hello!");
    assert_eq!(p.to_line(), "1,nom,2018-6-28,okayama,hello!");
    assert_eq!(p.to_csv(), "1,nom,2018-6-28,okayama,hello!");
    assert_eq!(
        p.to_string(),
        "id: 1\nname: nom\nbirthday: 2018-6-28\nhome: okayama\ncomment: hello!"
    );
}

#[test]
fn line_round_trip() {
    let p = sample(4294967295, "x y", Date::new(1, 2, 3), "", "z");
    let q = parse_csv(&p.to_line()).unwrap();
    assert_eq!(q.id, p.id);
    assert_eq!(q.name, p.name);
    assert_eq!(q.birthday, p.birthday);
    assert_eq!(q.home, p.home);
    assert_eq!(q.comment, p.comment);
}

#[test]
fn find_is_exact() {
    let p = sample(12, "nom", Date::new(2018, 6, 28), "okayama", "hello world");
    assert!(p.find("12"));
    assert!(p.find("nom"));
    assert!(p.find("2018-6-28"));
    assert!(p.find("okayama"));
    assert!(p.find("hello world"));
    assert!(!p.find("1"));
    assert!(!p.find("no"));
    assert!(!p.find("2018-06-28"));
    assert!(!p.find("Okayama"));
    assert!(!p.find("hello"));
}

#[test]
fn compare_by_each_key() {
    let a = sample(2, "abc", Date::new(2000, 1, 1), "b", "same");
    let b = sample(10, "abd", Date::new(1999, 12, 31), "a", "same");
    assert_eq!(a.compare_by(&b, 1), Ordering::Less);
    assert_eq!(a.compare_by(&b, 2), Ordering::Less);
    assert_eq!(a.compare_by(&b, 3), Ordering::Greater);
    assert_eq!(a.compare_by(&b, 4), Ordering::Greater);
    assert_eq!(a.compare_by(&b, 5), Ordering::Equal);
    let c = sample(1, "ab", Date::new(2000, 1, 1), "", "");
    assert_eq!(c.compare_by(&a, 2), Ordering::Less);
}
