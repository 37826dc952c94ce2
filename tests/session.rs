use db_sample::session::{Effect, Session};

fn shown(e: Effect) -> Vec<String> {
    match e {
        Effect::Show(v) => v,
        _ => panic!("nothing shown"),
    }
}

#[test]
fn nested_reads_share_the_store() {
    let mut s = Session::new();
    assert!(matches!(s.feed("1,a,2000-1-1,x,c"), Effect::Continue));
    match s.feed("%R outer.csv") {
        Effect::Open(p) => assert_eq!(p, "outer.csv"),
        _ => panic!("no open"),
    }
    assert_eq!(s.depth(), 1);
    assert!(matches!(s.feed("2,b,2000-1-1,x,c"), Effect::Continue));
    match s.feed("%R inner.csv") {
        Effect::Open(p) => assert_eq!(p, "inner.csv"),
        _ => panic!("no open"),
    }
    assert_eq!(s.depth(), 2);
    assert!(matches!(s.feed("3,c,2000-1-1,x,c"), Effect::Continue));
    assert!(s.end_stream());
    assert_eq!(shown(s.feed("%C")), vec!["3 profile(s)".to_string()]);
    assert!(s.end_stream());
    assert_eq!(s.depth(), 0);
    assert_eq!(shown(s.feed("%C")), vec!["3 profile(s)".to_string()]);
    assert!(!s.end_stream());
    assert_eq!(s.db().len(), 3);
}

#[test]
fn quit_halts_every_stream() {
    let mut s = Session::new();
    s.feed("%R a.csv");
    s.feed("%R b.csv");
    assert!(matches!(s.feed("%Q"), Effect::Halt));
    assert!(s.is_halted());
    assert_eq!(s.depth(), 0);
    assert!(matches!(s.feed("1,a,2000-1-1,x,c"), Effect::Halt));
    assert!(matches!(s.feed("%C"), Effect::Halt));
    assert!(!s.end_stream());
    assert_eq!(s.db().len(), 0);
}

#[test]
fn errors_are_reported_and_reading_goes_on() {
    let mut s = Session::new();
    match s.feed("bad line") {
        Effect::Report(m) => assert_eq!(m, "Error: illegal CSV format"),
        _ => panic!("no report"),
    }
    match s.feed("%S 9") {
        Effect::Report(m) => assert_eq!(m, "Error: unknown sort key"),
        _ => panic!("no report"),
    }
    assert!(!s.is_halted());
    assert!(matches!(s.feed("1,a,2000-1-1,x,c"), Effect::Continue));
    match s.feed("%W out.csv") {
        Effect::Save(p, text) => {
            assert_eq!(p, "out.csv");
            assert_eq!(text, "1,a,2000-1-1,x,c\n");
        }
        _ => panic!("no save"),
    }
    assert_eq!(shown(s.feed("%P 0")).len(), 1);
    assert_eq!(shown(s.feed("%F a")).len(), 1);
    assert!(matches!(s.feed("%S 1"), Effect::Continue));
}
