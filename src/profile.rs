//! Records of five fields, their line forms and their order by a chosen field.
use crate::date::{date_cmp, date_text, lemma_date_round_trip, parse_date, Date};
use crate::text::{
    cmp_chars, decimal, eq_chars, from_chars, lemma_decimal_digits, lemma_decimal_has_no,
    lemma_lex_cmp_basics, lemma_lex_cmp_trans, lemma_split_on_join, lemma_split_on_without,
    lex_cmp, parse_unsigned, parse_unsigned_chars, push_decimal, push_str, split_on, to_chars,
};
use std::cmp::Ordering;
use vstd::prelude::*;

verus! {

/// One stored record.
#[derive(Debug, Clone)]
pub struct Profile {
    pub id: u32,
    pub name: String,
    pub birthday: Date,
    pub home: String,
    pub comment: String,
}

/// What a record holds, with its texts as character sequences.
pub struct ProfileView {
    pub id: u32,
    pub name: Seq<char>,
    pub birthday: Date,
    pub home: Seq<char>,
    pub comment: Seq<char>,
}

impl View for Profile {
    type V = ProfileView;

    open spec fn view(&self) -> ProfileView {
        ProfileView {
            id: self.id,
            name: self.name@,
            birthday: self.birthday,
            home: self.home@,
            comment: self.comment@,
        }
    }
}

/// Why five fields do not make a record.
#[derive(Debug, Clone, Copy, PartialEq, Eq, Structural)]
pub enum FieldError {
    /// There are not exactly five fields.
    Count,
    /// The first field is not an unsigned 32-bit number.
    Id,
    /// The third field is not a date.
    Birthday,
}

/// The record that five text fields describe, or why they describe none.
pub open spec fn profile_of_fields(cols: Seq<Seq<char>>) -> Result<ProfileView, FieldError> {
    if cols.len() != 5 {
        Err(FieldError::Count)
    } else if parse_unsigned(cols[0], u32::MAX as nat) is None {
        Err(FieldError::Id)
    } else if parse_date(cols[2]) is None {
        Err(FieldError::Birthday)
    } else {
        Ok(
            ProfileView {
                id: parse_unsigned(cols[0], u32::MAX as nat)->0 as u32,
                name: cols[1],
                birthday: parse_date(cols[2])->0,
                home: cols[3],
                comment: cols[4],
            },
        )
    }
}

/// The line form: the five fields joined by commas, without a line end.
pub open spec fn line_text(p: ProfileView) -> Seq<char> {
    decimal(p.id as nat) + seq![','] + p.name + seq![','] + date_text(p.birthday) + seq![',']
        + p.home + seq![','] + p.comment
}

/// The human-readable form, one `label: value` line per field.
pub open spec fn display_text(p: ProfileView) -> Seq<char> {
    "id: "@ + decimal(p.id as nat) + "\nname: "@ + p.name + "\nbirthday: "@ + date_text(
        p.birthday,
    ) + "\nhome: "@ + p.home + "\ncomment: "@ + p.comment
}

/// Whether `word` is exactly the text of one of the five fields.
pub open spec fn matches_word(p: ProfileView, word: Seq<char>) -> bool {
    word == decimal(p.id as nat) || word == p.name || word == date_text(p.birthday) || word
        == p.home || word == p.comment
}

/// Whether `key` names a field: 1 to 5 for id, name, birthday, home, comment.
pub open spec fn valid_key(key: u8) -> bool {
    1 <= key <= 5
}

/// Order of two records by the field that `key` names.
pub open spec fn cmp_by(a: ProfileView, b: ProfileView, key: u8) -> Ordering {
    if key == 1 {
        if a.id < b.id {
            Ordering::Less
        } else if a.id > b.id {
            Ordering::Greater
        } else {
            Ordering::Equal
        }
    } else if key == 2 {
        lex_cmp(a.name, b.name)
    } else if key == 3 {
        date_cmp(a.birthday, b.birthday)
    } else if key == 4 {
        lex_cmp(a.home, b.home)
    } else {
        lex_cmp(a.comment, b.comment)
    }
}

/// Swapping the records reverses `cmp_by`, and ties are symmetric.
pub proof fn lemma_cmp_by_swap(a: ProfileView, b: ProfileView, key: u8)
    ensures
        (cmp_by(a, b, key) == Ordering::Less) == (cmp_by(b, a, key) == Ordering::Greater),
        (cmp_by(a, b, key) == Ordering::Equal) == (cmp_by(b, a, key) == Ordering::Equal),
{
    lemma_lex_cmp_basics(a.name, b.name);
    lemma_lex_cmp_basics(b.name, a.name);
    lemma_lex_cmp_basics(a.home, b.home);
    lemma_lex_cmp_basics(b.home, a.home);
    lemma_lex_cmp_basics(a.comment, b.comment);
    lemma_lex_cmp_basics(b.comment, a.comment);
}

/// Not-greater under `cmp_by` is transitive.
pub proof fn lemma_cmp_by_trans(a: ProfileView, b: ProfileView, c: ProfileView, key: u8)
    requires
        cmp_by(a, b, key) != Ordering::Greater,
        cmp_by(b, c, key) != Ordering::Greater,
    ensures
        cmp_by(a, c, key) != Ordering::Greater,
{
    if key == 2 {
        lemma_lex_cmp_trans(a.name, b.name, c.name);
    } else if key == 4 {
        lemma_lex_cmp_trans(a.home, b.home, c.home);
    } else if key != 1 && key != 3 {
        lemma_lex_cmp_trans(a.comment, b.comment, c.comment);
    }
}

/// Splitting a record's line form at its commas and reading the five fields
/// back gives the record again, where its texts hold no comma.
pub proof fn lemma_line_round_trip(p: ProfileView)
    requires
        !p.name.contains(','),
        !p.home.contains(','),
        !p.comment.contains(','),
    ensures
        profile_of_fields(split_on(line_text(p), ',')) == Ok::<ProfileView, FieldError>(p),
{
    let i = decimal(p.id as nat);
    let t = date_text(p.birthday);
    lemma_decimal_digits(p.id as nat);
    lemma_decimal_has_no(p.id as nat, ',');
    lemma_date_round_trip(p.birthday);
    lemma_split_on_without(i, ',');
    lemma_split_on_without(p.name, ',');
    lemma_split_on_without(t, ',');
    lemma_split_on_without(p.home, ',');
    lemma_split_on_without(p.comment, ',');
    let a1 = i + seq![','] + p.name;
    let a2 = a1 + seq![','] + t;
    let a3 = a2 + seq![','] + p.home;
    lemma_split_on_join(i, p.name, ',');
    lemma_split_on_join(a1, t, ',');
    lemma_split_on_join(a2, p.home, ',');
    lemma_split_on_join(a3, p.comment, ',');
    assert(line_text(p) == a3 + seq![','] + p.comment);
    let cols = split_on(line_text(p), ',');
    assert(cols =~= seq![i, p.name, t, p.home, p.comment]);
    assert(profile_of_fields(cols) == Ok::<ProfileView, FieldError>(p));
}

impl Profile {
    pub fn new(id: u32, name: String, birthday: Date, home: String, comment: String) -> (r:
        Profile)
        ensures
            r@ == (ProfileView { id, name: name@, birthday, home: home@, comment: comment@ }),
    {
        Profile { id, name, birthday, home, comment }
    }

    /// Builds a record from its five text fields, in line order.
    pub fn from_vector(columns: Vec<&str>) -> (r: Result<Profile, FieldError>)
        ensures
            match r {
                Ok(p) => profile_of_fields(columns@.map_values(|c: &str| c@)) == Ok::<
                    ProfileView,
                    FieldError,
                >(p@),
                Err(e) => profile_of_fields(columns@.map_values(|c: &str| c@)) == Err::<
                    ProfileView,
                    FieldError,
                >(e),
            },
    {
        let ghost cols = columns@.map_values(|c: &str| c@);
        if columns.len() != 5 {
            return Err(FieldError::Count);
        }
        assert(cols[0] == columns@[0]@);
        assert(cols[1] == columns@[1]@);
        assert(cols[2] == columns@[2]@);
        assert(cols[3] == columns@[3]@);
        assert(cols[4] == columns@[4]@);
        let id_chars = to_chars(columns[0]);
        let id = match parse_unsigned_chars(&id_chars, 0xffff_ffff) {
            Some(v) => v as u32,
            None => {
                return Err(FieldError::Id);
            },
        };
        let birthday = match Date::from_str(columns[2]) {
            Ok(d) => d,
            Err(_) => {
                return Err(FieldError::Birthday);
            },
        };
        Ok(
            Profile {
                id,
                name: columns[1].to_owned(),
                birthday,
                home: columns[3].to_owned(),
                comment: columns[4].to_owned(),
            },
        )
    }

    /// The line form: the five fields joined by commas.
    pub fn to_line(&self) -> (r: String)
        ensures
            r@ == line_text(self@),
    {
        let mut v: Vec<char> = Vec::new();
        push_decimal(&mut v, self.id as u64);
        v.push(',');
        push_str(&mut v, self.name.as_str());
        v.push(',');
        push_str(&mut v, self.birthday.to_string().as_str());
        v.push(',');
        push_str(&mut v, self.home.as_str());
        v.push(',');
        push_str(&mut v, self.comment.as_str());
        assert(v@ =~= line_text(self@));
        from_chars(&v)
    }

    /// The line form, as a file holds it; the writer adds the line end.
    pub fn to_csv(&self) -> (r: String)
        ensures
            r@ == line_text(self@),
    {
        self.to_line()
    }

    /// The human-readable form, one `label: value` line per field.
    pub fn to_string(&self) -> (r: String)
        ensures
            r@ == display_text(self@),
    {
        let mut v: Vec<char> = Vec::new();
        push_str(&mut v, "id: ");
        push_decimal(&mut v, self.id as u64);
        push_str(&mut v, "\nname: ");
        push_str(&mut v, self.name.as_str());
        push_str(&mut v, "\nbirthday: ");
        push_str(&mut v, self.birthday.to_string().as_str());
        push_str(&mut v, "\nhome: ");
        push_str(&mut v, self.home.as_str());
        push_str(&mut v, "\ncomment: ");
        push_str(&mut v, self.comment.as_str());
        assert(v@ =~= display_text(self@));
        from_chars(&v)
    }

    /// Whether `word` is exactly the text of one of the five fields.
    pub fn find(&self, word: &str) -> (r: bool)
        ensures
            r == matches_word(self@, word@),
    {
        let w = to_chars(word);
        let mut id_text: Vec<char> = Vec::new();
        push_decimal(&mut id_text, self.id as u64);
        let date = to_chars(self.birthday.to_string().as_str());
        let name = to_chars(self.name.as_str());
        let home = to_chars(self.home.as_str());
        let comment = to_chars(self.comment.as_str());
        assert(id_text@ =~= decimal(self.id as nat));
        eq_chars(&w, &id_text) || eq_chars(&w, &name) || eq_chars(&w, &date) || eq_chars(
            &w,
            &home,
        ) || eq_chars(&w, &comment)
    }

    /// Compares two records by the field that `key` names.
    pub fn compare_by(&self, other: &Profile, key: u8) -> (r: Ordering)
        requires
            valid_key(key),
        ensures
            r == cmp_by(self@, other@, key),
    {
        if key == 1 {
            if self.id < other.id {
                Ordering::Less
            } else if self.id > other.id {
                Ordering::Greater
            } else {
                Ordering::Equal
            }
        } else if key == 2 {
            cmp_chars(&to_chars(self.name.as_str()), &to_chars(other.name.as_str()))
        } else if key == 3 {
            self.birthday.compare(&other.birthday)
        } else if key == 4 {
            cmp_chars(&to_chars(self.home.as_str()), &to_chars(other.home.as_str()))
        } else {
            cmp_chars(&to_chars(self.comment.as_str()), &to_chars(other.comment.as_str()))
        }
    }
}

} // verus!
