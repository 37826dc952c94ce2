//! The line classifier: one input line becomes one `Action`, and the
//! actions that only read or change the store.
use crate::db::{found, print_end, print_start, print_range, KeyError, ProfileDB};
use crate::profile::{display_text, profile_of_fields, valid_key, FieldError, Profile, ProfileView};
use crate::text::{
    decimal, from_chars, parse_i32, parse_i32_chars, parse_unsigned, parse_unsigned_chars,
    push_decimal, push_str, split_chars, split_on, to_chars, trim_chars, trimmed, views,
};
use vstd::prelude::*;

verus! {

/// What one input line asks for.
#[derive(Debug)]
pub enum Action {
    Append(Profile),
    Quit,
    Count,
    Print(i32),
    Read(String),
    Write(String),
    Find(String),
    Sort(u8),
    Error(String),
}

/// What an `Action` holds, with its texts as character sequences.
pub enum ActionView {
    Append(ProfileView),
    Quit,
    Count,
    Print(int),
    Read(Seq<char>),
    Write(Seq<char>),
    Find(Seq<char>),
    Sort(u8),
    Error(Seq<char>),
}

impl View for Action {
    type V = ActionView;

    open spec fn view(&self) -> ActionView {
        match self {
            Action::Append(p) => ActionView::Append(p@),
            Action::Quit => ActionView::Quit,
            Action::Count => ActionView::Count,
            Action::Print(n) => ActionView::Print(*n as int),
            Action::Read(s) => ActionView::Read(s@),
            Action::Write(s) => ActionView::Write(s@),
            Action::Find(s) => ActionView::Find(s@),
            Action::Sort(k) => ActionView::Sort(*k),
            Action::Error(s) => ActionView::Error(s@),
        }
    }
}

/// The message for a command line that cannot be read.
pub open spec fn bad_command_text() -> Seq<char> {
    "illegal command format"@
}

/// The message for a command letter that names no command.
pub open spec fn unknown_command_text() -> Seq<char> {
    "unknown command"@
}

/// The message for a record line that cannot be read.
pub open spec fn bad_csv_text() -> Seq<char> {
    "illegal CSV format"@
}

/// What the text after `%` asks for: a command letter, then a parameter
/// taken without surrounding white space.
pub open spec fn command_of(rest: Seq<char>) -> ActionView {
    if rest.len() == 0 {
        ActionView::Error(unknown_command_text())
    } else {
        let c = rest[0];
        let param = trimmed(rest.drop_first());
        if c == 'Q' {
            ActionView::Quit
        } else if c == 'C' {
            ActionView::Count
        } else if c == 'P' {
            match parse_i32(param) {
                Some(n) => ActionView::Print(n),
                None => ActionView::Error(bad_command_text()),
            }
        } else if c == 'R' {
            ActionView::Read(param)
        } else if c == 'W' {
            ActionView::Write(param)
        } else if c == 'F' {
            ActionView::Find(param)
        } else if c == 'S' {
            match parse_unsigned(param, u8::MAX as nat) {
                Some(k) => ActionView::Sort(k as u8),
                None => ActionView::Error(bad_command_text()),
            }
        } else {
            ActionView::Error(unknown_command_text())
        }
    }
}

/// What a line asks for: a command where it starts with `%`, else a record
/// of five comma-separated fields.
pub open spec fn classify(line: Seq<char>) -> ActionView {
    if line.len() > 0 && line[0] == '%' {
        command_of(line.drop_first())
    } else {
        match profile_of_fields(split_on(line, ',')) {
            Ok(p) => ActionView::Append(p),
            Err(_) => ActionView::Error(bad_csv_text()),
        }
    }
}

/// Reads the text after `%`.
pub fn parse_cmd(rest: &[char]) -> (r: Action)
    ensures
        r@ == command_of(rest@),
{
    if rest.len() == 0 {
        return Action::Error("unknown command".to_owned());
    }
    let c = rest[0];
    let after = crate::text::slice_chars(rest, 1, rest.len());
    assert(after@ =~= rest@.drop_first());
    let param = trim_chars(&after);
    if c == 'Q' {
        Action::Quit
    } else if c == 'C' {
        Action::Count
    } else if c == 'P' {
        match parse_i32_chars(&param) {
            Some(n) => Action::Print(n),
            None => Action::Error("illegal command format".to_owned()),
        }
    } else if c == 'R' {
        Action::Read(from_chars(&param))
    } else if c == 'W' {
        Action::Write(from_chars(&param))
    } else if c == 'F' {
        Action::Find(from_chars(&param))
    } else if c == 'S' {
        match parse_unsigned_chars(&param, 0xff) {
            Some(k) => Action::Sort(k as u8),
            None => Action::Error("illegal command format".to_owned()),
        }
    } else {
        Action::Error("unknown command".to_owned())
    }
}

/// Reads a record line of five comma-separated fields.
pub fn parse_csv(line: &str) -> (r: Result<Profile, FieldError>)
    ensures
        match r {
            Ok(p) => profile_of_fields(split_on(line@, ',')) == Ok::<ProfileView, FieldError>(p@),
            Err(e) => profile_of_fields(split_on(line@, ',')) == Err::<ProfileView, FieldError>(e),
        },
{
    let chars = to_chars(line);
    let parts = split_chars(&chars, ',');
    assert(views(parts@).len() == parts@.len());
    if parts.len() != 5 {
        return Err(FieldError::Count);
    }
    let f0 = from_chars(&parts[0]);
    let f1 = from_chars(&parts[1]);
    let f2 = from_chars(&parts[2]);
    let f3 = from_chars(&parts[3]);
    let f4 = from_chars(&parts[4]);
    let columns: Vec<&str> = vec![f0.as_str(), f1.as_str(), f2.as_str(), f3.as_str(), f4.as_str()];
    assert(columns@.map_values(|c: &str| c@) =~= split_on(line@, ','));
    Profile::from_vector(columns)
}

/// Classifies one input line, given without its line end.
pub fn parse_line(line: &str) -> (r: Action)
    ensures
        r@ == classify(line@),
{
    let chars = to_chars(line);
    if chars.len() > 0 && chars[0] == '%' {
        let rest = crate::text::slice_chars(&chars, 1, chars.len());
        assert(rest@ =~= line@.drop_first());
        parse_cmd(&rest)
    } else {
        match parse_csv(line) {
            Ok(p) => Action::Append(p),
            Err(_) => Action::Error("illegal CSV format".to_owned()),
        }
    }
}

/// The report of a store of `len` records.
pub open spec fn count_text(len: nat) -> Seq<char> {
    decimal(len) + " profile(s)"@
}

impl Action {
    /// Adds `profile` at the end of the store.
    pub fn append(profile_db: &mut ProfileDB, profile: Profile)
        ensures
            final(profile_db)@ == old(profile_db)@.push(profile@),
    {
        profile_db.push(profile)
    }

    /// The report of how many records the store holds.
    pub fn count(profile_db: &ProfileDB) -> (r: String)
        ensures
            r@ == count_text(profile_db@.len()),
    {
        let mut v: Vec<char> = Vec::new();
        push_decimal(&mut v, profile_db.len() as u64);
        push_str(&mut v, " profile(s)");
        from_chars(&v)
    }

    /// The records that `Print(nitems)` shows, in human-readable form: the
    /// first `nitems` where it is positive, the last `-nitems` where it is
    /// negative, all of them for zero.
    pub fn print(profile_db: &ProfileDB, nitems: i32) -> (r: Vec<String>)
        ensures
            r@.len() == print_end(profile_db@.len() as int, nitems as int) - print_start(
                profile_db@.len() as int,
                nitems as int,
            ),
            forall|k: int|
                0 <= k < r@.len() ==> #[trigger] r@[k]@ == display_text(
                    profile_db@[print_start(profile_db@.len() as int, nitems as int) + k],
                ),
    {
        let (s, e) = print_range(profile_db.len(), nitems);
        profile_db.print(s, e)
    }

    /// The records that `word` matches exactly in one field, in store order.
    pub fn find(profile_db: &ProfileDB, word: &str) -> (r: Vec<String>)
        ensures
            r@.len() == found(profile_db@, word@).len(),
            forall|k: int|
                0 <= k < r@.len() ==> #[trigger] r@[k]@ == display_text(
                    found(profile_db@, word@)[k],
                ),
    {
        profile_db.find(word)
    }

    /// Sorts the store by the field that `key` names.
    pub fn sort(profile_db: &mut ProfileDB, key: u8) -> (r: Result<(), KeyError>)
        ensures
            r is Ok <==> valid_key(key),
            r is Ok ==> exists|p: Seq<int>|
                crate::db::stable_sort_by(p, final(profile_db)@, old(profile_db)@, key),
            r is Err ==> final(profile_db)@ == old(profile_db)@,
    {
        profile_db.sort(key)
    }
}

} // verus!
