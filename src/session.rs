//! The interpreter's decisions. A session owns the store, counts the nested
//! streams that `%R` opened, and turns each line into a change of the store
//! and an `Effect` that the caller carries out: text to show, a file to open
//! or write, or a halt.
use crate::action::{classify, count_text, parse_line, Action, ActionView};
use crate::db::{csv_text, found, print_end, print_start, stable_sort_by, ProfileDB};
use crate::profile::{display_text, valid_key, ProfileView};
use crate::text::{from_chars, push_str};
use vstd::prelude::*;

verus! {

/// What the caller does after a line.
pub enum Effect {
    /// Nothing: read the next line.
    Continue,
    /// Show these lines.
    Show(Vec<String>),
    /// Report this error line, then read the next line.
    Report(String),
    /// Open the file at this path as a nested stream and read all of it
    /// before the next line of the current stream.
    Open(String),
    /// Write this text to the file at this path.
    Save(String, String),
    /// Stop reading: close every open stream.
    Halt,
}

/// What a session holds.
pub struct SessionView {
    pub store: Seq<ProfileView>,
    pub depth: nat,
    pub halted: bool,
}

/// The interpreter's state: the store, how many nested streams are open
/// above the first one, and whether a `%Q` has been met.
pub struct Session {
    db: ProfileDB,
    depth: usize,
    halted: bool,
}

impl View for Session {
    type V = SessionView;

    closed spec fn view(&self) -> SessionView {
        SessionView { store: self.db@, depth: self.depth as nat, halted: self.halted }
    }
}

/// The report of an error message.
pub open spec fn report_text(message: Seq<char>) -> Seq<char> {
    "Error: "@ + message
}

/// The message for a sort key that names no field.
pub open spec fn bad_key_text() -> Seq<char> {
    "unknown sort key"@
}

/// The message for a `%R` nested deeper than a counter can hold.
pub open spec fn too_deep_text() -> Seq<char> {
    "too many nested reads"@
}

/// `v` holds the human-readable forms of `s`, in order.
pub open spec fn shows(v: Seq<String>, s: Seq<ProfileView>) -> bool {
    v.len() == s.len() && forall|k: int| 0 <= k < v.len() ==> #[trigger] v[k]@ == display_text(s[k])
}

/// How applying `a` to a running session in state `s` gives state `t` and
/// effect `r`.
pub open spec fn applied(a: ActionView, s: SessionView, t: SessionView, r: Effect) -> bool {
    let same = t == s;
    match a {
        ActionView::Append(p) => t == (SessionView { store: s.store.push(p), ..s }) && r is Continue,
        ActionView::Quit => t == (SessionView { halted: true, depth: 0, ..s }) && r is Halt,
        ActionView::Count => same && match r {
            Effect::Show(v) => v@.len() == 1 && v@[0]@ == count_text(s.store.len()),
            _ => false,
        },
        ActionView::Print(n) => same && match r {
            Effect::Show(v) => shows(
                v@,
                s.store.subrange(
                    print_start(s.store.len() as int, n),
                    print_end(s.store.len() as int, n),
                ),
            ),
            _ => false,
        },
        ActionView::Read(path) => if s.depth < usize::MAX {
            t == (SessionView { depth: s.depth + 1, ..s }) && match r {
                Effect::Open(f) => f@ == path,
                _ => false,
            }
        } else {
            same && match r {
                Effect::Report(m) => m@ == report_text(too_deep_text()),
                _ => false,
            }
        },
        ActionView::Write(path) => same && match r {
            Effect::Save(f, text) => f@ == path && text@ == csv_text(s.store),
            _ => false,
        },
        ActionView::Find(word) => same && match r {
            Effect::Show(v) => shows(v@, found(s.store, word)),
            _ => false,
        },
        ActionView::Sort(key) => if valid_key(key) {
            t.depth == s.depth && t.halted == s.halted && (exists|p: Seq<int>|
                stable_sort_by(p, t.store, s.store, key)) && r is Continue
        } else {
            same && match r {
                Effect::Report(m) => m@ == report_text(bad_key_text()),
                _ => false,
            }
        },
        ActionView::Error(message) => same && match r {
            Effect::Report(m) => m@ == report_text(message),
            _ => false,
        },
    }
}

/// One step of a session: a halted session stays as it is and answers
/// `Halt`; a running one applies `a`.
pub open spec fn stepped(a: ActionView, s: SessionView, t: SessionView, r: Effect) -> bool {
    if s.halted {
        t == s && r is Halt
    } else {
        applied(a, s, t, r)
    }
}

/// After `%Q` nothing is acted upon: whatever lines follow, and wherever
/// streams end, the session keeps the state that the quit left, and each
/// line is answered with `Halt`.
pub proof fn lemma_quit_is_final(
    s: SessionView,
    t: SessionView,
    r: Effect,
    later: Seq<ActionView>,
    states: Seq<SessionView>,
    effects: Seq<Effect>,
)
    requires
        !s.halted,
        applied(ActionView::Quit, s, t, r),
        states.len() == later.len() + 1,
        effects.len() == later.len(),
        states[0] == t,
        forall|i: int|
            0 <= i < later.len() ==> stepped(later[i], states[i], #[trigger] states[i + 1], effects[i])
                || ended(states[i], states[i + 1]),
    ensures
        r is Halt,
        t.halted,
        t.depth == 0,
        t.store == s.store,
        forall|i: int| 0 <= i < states.len() ==> #[trigger] states[i] == t,
        forall|i: int|
            0 <= i < later.len() && stepped(later[i], states[i], states[i + 1], #[trigger] effects[i])
                ==> effects[i] is Halt,
    decreases later.len(),
{
    if later.len() > 0 {
        let n = later.len() - 1;
        lemma_quit_is_final(
            s,
            t,
            r,
            later.subrange(0, n),
            states.subrange(0, n + 1),
            effects.subrange(0, n),
        );
        assert(states[n] == states.subrange(0, n + 1)[n]);
        assert(stepped(later[n], states[n], states[n + 1], effects[n]) || ended(
            states[n],
            states[n + 1],
        ));
        assert forall|i: int| 0 <= i < states.len() implies #[trigger] states[i] == t by {
            if i <= n {
                assert(states[i] == states.subrange(0, n + 1)[i]);
            }
        }
    }
}

/// How the end of the current stream takes state `s` to `t`: a running
/// session with nested streams goes back to the enclosing one; otherwise
/// nothing changes.
pub open spec fn ended(s: SessionView, t: SessionView) -> bool {
    if !s.halted && s.depth > 0 {
        t == (SessionView { depth: (s.depth - 1) as nat, ..s })
    } else {
        t == s
    }
}

/// A record appended inside a nested stream stays in the store once that
/// stream ends, and the count that the enclosing stream asks for next
/// includes it.
pub proof fn lemma_nested_append_seen(
    s0: SessionView,
    s1: SessionView,
    s2: SessionView,
    s3: SessionView,
    s4: SessionView,
    path: Seq<char>,
    p: ProfileView,
    r1: Effect,
    r2: Effect,
    r4: Effect,
)
    requires
        !s0.halted,
        s0.depth < usize::MAX,
        applied(ActionView::Read(path), s0, s1, r1),
        applied(ActionView::Append(p), s1, s2, r2),
        ended(s2, s3),
        applied(ActionView::Count, s3, s4, r4),
    ensures
        r1 is Open,
        s3.depth == s0.depth,
        s3.store == s0.store.push(p),
        match r4 {
            Effect::Show(v) => v@.len() == 1 && v@[0]@ == count_text(s0.store.len() + 1),
            _ => false,
        },
{
}

fn report(message: &str) -> (r: String)
    ensures
        r@ == report_text(message@),
{
    let mut v: Vec<char> = Vec::new();
    push_str(&mut v, "Error: ");
    push_str(&mut v, message);
    from_chars(&v)
}

impl Session {
    pub fn new() -> (r: Session)
        ensures
            r@ == (SessionView { store: Seq::empty(), depth: 0, halted: false }),
    {
        Session { db: ProfileDB::new(), depth: 0, halted: false }
    }

    /// The store.
    pub fn db(&self) -> (r: &ProfileDB)
        ensures
            r@ == self@.store,
    {
        &self.db
    }

    /// How many nested streams are open above the first one.
    pub fn depth(&self) -> (r: usize)
        ensures
            r == self@.depth,
    {
        self.depth
    }

    /// Whether a `%Q` has been met.
    pub fn is_halted(&self) -> (r: bool)
        ensures
            r == self@.halted,
    {
        self.halted
    }

    /// Carries out `action`. Once halted, a session does nothing more.
    pub fn apply(&mut self, action: Action) -> (r: Effect)
        ensures
            stepped(action@, old(self)@, final(self)@, r),
    {
        if self.halted {
            return Effect::Halt;
        }
        match action {
            Action::Append(p) => {
                Action::append(&mut self.db, p);
                Effect::Continue
            },
            Action::Quit => {
                self.halted = true;
                self.depth = 0;
                Effect::Halt
            },
            Action::Count => {
                let line = Action::count(&self.db);
                let mut v: Vec<String> = Vec::new();
                v.push(line);
                Effect::Show(v)
            },
            Action::Print(n) => {
                let v = Action::print(&self.db, n);
                proof {
                    let st = self@.store;
                    let a = print_start(st.len() as int, n as int);
                    let sub = st.subrange(a, print_end(st.len() as int, n as int));
                    assert forall|k: int| 0 <= k < v@.len() implies #[trigger] v@[k]@
                        == display_text(sub[k]) by {
                        assert(sub[k] == st[a + k]);
                    }
                }
                Effect::Show(v)
            },
            Action::Read(path) => {
                if self.depth < usize::MAX {
                    self.depth = self.depth + 1;
                    Effect::Open(path)
                } else {
                    Effect::Report(report("too many nested reads"))
                }
            },
            Action::Write(path) => Effect::Save(path, self.db.to_csv()),
            Action::Find(word) => Effect::Show(Action::find(&self.db, word.as_str())),
            Action::Sort(key) => {
                let ghost before = self.db@;
                match Action::sort(&mut self.db, key) {
                    Ok(()) => {
                        proof {
                            let p = choose|p: Seq<int>| stable_sort_by(p, self.db@, before, key);
                            assert(stable_sort_by(p, self@.store, old(self)@.store, key));
                        }
                        Effect::Continue
                    },
                    Err(_) => Effect::Report(report("unknown sort key")),
                }
            },
            Action::Error(message) => Effect::Report(report(message.as_str())),
        }
    }

    /// Reads one line of the current stream, given without its line end.
    pub fn feed(&mut self, line: &str) -> (r: Effect)
        ensures
            stepped(classify(line@), old(self)@, final(self)@, r),
    {
        let action = parse_line(line);
        self.apply(action)
    }

    /// The current stream has ended, or could not be opened. Returns whether
    /// an enclosing stream resumes; the first stream's end is the end of the
    /// session.
    pub fn end_stream(&mut self) -> (r: bool)
        ensures
            r == (!old(self)@.halted && old(self)@.depth > 0),
            ended(old(self)@, final(self)@),
    {
        if self.halted || self.depth == 0 {
            false
        } else {
            self.depth = self.depth - 1;
            true
        }
    }
}

} // verus!
