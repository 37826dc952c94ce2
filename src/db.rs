//! The ordered record store: append, stable sort by a field, ranged and
//! matching queries, and its file form.
use crate::profile::{
    cmp_by, display_text, lemma_cmp_by_swap, lemma_cmp_by_trans, line_text, matches_word, valid_key,
    Profile, ProfileView,
};
use std::cmp::Ordering;
use vstd::prelude::*;

verus! {

/// The views of a sequence of records.
pub open spec fn views_of(v: Seq<Profile>) -> Seq<ProfileView> {
    v.map_values(|p: Profile| p@)
}

/// Every earlier record is not greater than every later one under `key`.
pub open spec fn sorted_by(s: Seq<ProfileView>, key: u8) -> bool {
    forall|a: int, b: int|
        0 <= a < b < s.len() ==> cmp_by(#[trigger] s[a], #[trigger] s[b], key) != Ordering::Greater
}

/// `r` is `s` reordered by `p` (`r[k]` is `s[p[k]]`), sorted by `key`, and
/// records that tie under `key` keep their order from `s`.
pub open spec fn stable_sort_by(p: Seq<int>, r: Seq<ProfileView>, s: Seq<ProfileView>, key: u8) -> bool {
    &&& p.len() == s.len()
    &&& r.len() == s.len()
    &&& forall|k: int| 0 <= k < s.len() ==> 0 <= #[trigger] p[k] < s.len() && r[k] == s[p[k]]
    &&& forall|a: int, b: int| 0 <= a < b < s.len() ==> #[trigger] p[a] != #[trigger] p[b]
    &&& sorted_by(r, key)
    &&& forall|a: int, b: int|
        0 <= a < b < s.len() && cmp_by(#[trigger] r[a], #[trigger] r[b], key) == Ordering::Equal
            ==> p[a] < p[b]
}

/// Where position `k` was before the item at `i` moved to `j <= i`.
spec fn moved_from(k: int, i: int, j: int) -> int {
    if k < j {
        k
    } else if k == j {
        i
    } else if k <= i {
        k - 1
    } else {
        k
    }
}

/// Sorts `v` by `key`, keeping the order of ties.
fn insertion_sort(v: &mut Vec<Profile>, key: u8)
    requires
        valid_key(key),
    ensures
        exists|p: Seq<int>| stable_sort_by(p, views_of(final(v)@), views_of(old(v)@), key),
{
    let ghost s = views_of(v@);
    let ghost mut p: Seq<int> = Seq::new(v@.len(), |k: int| k);
    let n = v.len();
    let mut i: usize = 0;
    while i < n
        invariant
            n == v@.len(),
            s.len() == n,
            i <= n,
            p.len() == n,
            valid_key(key),
            forall|k: int| 0 <= k < n ==> 0 <= #[trigger] p[k] < n && views_of(v@)[k] == s[p[k]],
            forall|a: int, b: int| 0 <= a < b < n ==> #[trigger] p[a] != #[trigger] p[b],
            forall|k: int| i <= k < n ==> #[trigger] p[k] == k,
            forall|k: int| 0 <= k < i ==> #[trigger] p[k] < i,
            forall|a: int, b: int|
                0 <= a < b < i ==> cmp_by(
                    #[trigger] views_of(v@)[a],
                    #[trigger] views_of(v@)[b],
                    key,
                ) != Ordering::Greater,
            forall|a: int, b: int|
                0 <= a < b < i && cmp_by(
                    #[trigger] views_of(v@)[a],
                    #[trigger] views_of(v@)[b],
                    key,
                ) == Ordering::Equal ==> p[a] < p[b],
        decreases n - i,
    {
        let ghost w = views_of(v@);
        let x = v.remove(i);
        let ghost u = views_of(v@);
        assert(u =~= w.remove(i as int));
        let mut j: usize = i;
        while j > 0 && matches!(v[j - 1].compare_by(&x, key), Ordering::Greater)
            invariant
                j <= i < n,
                v@.len() == n - 1,
                u == views_of(v@),
                valid_key(key),
                forall|k: int| j <= k < i ==> cmp_by(#[trigger] u[k], x@, key) == Ordering::Greater,
            decreases j,
        {
            j = j - 1;
        }
        v.insert(j, x);
        let ghost w2 = views_of(v@);
        assert(w2 =~= u.insert(j as int, x@));
        let ghost next_p = p.remove(i as int).insert(j as int, i as int);
        assert(x@ == w[i as int]);
        assert forall|k: int| 0 <= k < n implies #[trigger] w2[k] == w[moved_from(k, i as int, j as int)]
            && next_p[k] == p[moved_from(k, i as int, j as int)] by {}
        assert forall|a: int, b: int|
            0 <= a < b < i + 1 implies cmp_by(#[trigger] w2[a], #[trigger] w2[b], key)
            != Ordering::Greater && (cmp_by(w2[a], w2[b], key) == Ordering::Equal ==> next_p[a] < next_p[b]) by {
            lemma_cmp_by_swap(w2[a], w2[b], key);
            if b == j {
                if j > 0 {
                    assert(cmp_by(w2[j - 1], x@, key) != Ordering::Greater);
                    if a < j - 1 {
                        assert(w2[a] == w[a] && w2[j - 1] == w[j - 1]);
                        lemma_cmp_by_trans(w2[a], w2[j - 1], x@, key);
                    }
                }
            } else if a == j {
                assert(w2[b] == u[b - 1]);
                assert(cmp_by(u[b - 1], x@, key) == Ordering::Greater);
                lemma_cmp_by_swap(u[b - 1], x@, key);
            }
        }
        proof {
            p = next_p;
        }
        i = i + 1;
    }
    assert(stable_sort_by(p, views_of(v@), s, key));
}


/// A stable sort leaves an already sorted sequence as it is.
pub proof fn lemma_stable_sort_of_sorted(p: Seq<int>, r: Seq<ProfileView>, s: Seq<ProfileView>, key: u8)
    requires
        sorted_by(s, key),
        stable_sort_by(p, r, s, key),
    ensures
        r == s,
{
    let n = s.len() as int;
    // the reordering is increasing
    assert forall|a: int, b: int| 0 <= a < b < n implies #[trigger] p[a] < #[trigger] p[b] by {
        if p[a] > p[b] {
            assert(s[p[b]] == r[b] && s[p[a]] == r[a]);
            assert(cmp_by(s[p[b]], s[p[a]], key) != Ordering::Greater);
            assert(cmp_by(r[a], r[b], key) != Ordering::Greater);
            lemma_cmp_by_swap(r[a], r[b], key);
        }
    }
    assert forall|k: int| 0 <= k < n implies #[trigger] p[k] == k by {
        lemma_increasing_is_identity(p, n, k);
    }
    assert forall|k: int| 0 <= k < n implies #[trigger] r[k] == s[k] by {
        assert(r[k] == s[p[k]]);
    }
    assert(r =~= s);
}

proof fn lemma_increasing_is_identity(p: Seq<int>, n: int, k: int)
    requires
        p.len() == n,
        0 <= k < n,
        forall|i: int| 0 <= i < n ==> 0 <= #[trigger] p[i] < n,
        forall|a: int, b: int| 0 <= a < b < n ==> #[trigger] p[a] < #[trigger] p[b],
    ensures
        p[k] == k,
{
    lemma_increasing_at_least(p, n, k);
    lemma_increasing_at_most(p, n, k);
}

proof fn lemma_increasing_at_least(p: Seq<int>, n: int, k: int)
    requires
        p.len() == n,
        0 <= k < n,
        forall|i: int| 0 <= i < n ==> 0 <= #[trigger] p[i] < n,
        forall|a: int, b: int| 0 <= a < b < n ==> #[trigger] p[a] < #[trigger] p[b],
    ensures
        p[k] >= k,
    decreases k,
{
    if k > 0 {
        lemma_increasing_at_least(p, n, k - 1);
        assert(p[k - 1] < p[k]);
    }
}

proof fn lemma_increasing_at_most(p: Seq<int>, n: int, k: int)
    requires
        p.len() == n,
        0 <= k < n,
        forall|i: int| 0 <= i < n ==> 0 <= #[trigger] p[i] < n,
        forall|a: int, b: int| 0 <= a < b < n ==> #[trigger] p[a] < #[trigger] p[b],
    ensures
        p[k] <= k,
    decreases n - k,
{
    if k < n - 1 {
        lemma_increasing_at_most(p, n, k + 1);
        assert(p[k] < p[k + 1]);
    }
}

/// Sorting is idempotent: a stable sort of a stable sort by the same key is
/// the first sort's result, and a stable sort of a sequence already sorted
/// by that key leaves it unchanged.
pub proof fn lemma_sort_idempotent(
    s: Seq<ProfileView>,
    first: Seq<int>,
    r1: Seq<ProfileView>,
    second: Seq<int>,
    r2: Seq<ProfileView>,
    key: u8,
)
    requires
        stable_sort_by(first, r1, s, key),
        stable_sort_by(second, r2, r1, key),
    ensures
        r2 == r1,
        sorted_by(s, key) ==> r1 == s,
{
    lemma_stable_sort_of_sorted(second, r2, r1, key);
    if sorted_by(s, key) {
        lemma_stable_sort_of_sorted(first, r1, s, key);
    }
}

/// The records of `s` that `word` matches, in store order.
pub open spec fn found(s: Seq<ProfileView>, word: Seq<char>) -> Seq<ProfileView>
    decreases s.len(),
{
    if s.len() == 0 {
        Seq::empty()
    } else if matches_word(s.last(), word) {
        found(s.drop_last(), word).push(s.last())
    } else {
        found(s.drop_last(), word)
    }
}

/// How many records `Print(n)` shows of a store of `len` records, and where:
/// all of them for zero, the first `min(n, len)` for positive `n`, the last
/// `min(-n, len)` for negative `n`.
pub proof fn lemma_print_counts(len: int, n: int)
    requires
        len >= 0,
    ensures
        n == 0 ==> print_start(len, n) == 0 && print_end(len, n) == len,
        n > 0 ==> print_start(len, n) == 0 && print_end(len, n) == if n < len { n } else { len },
        n < 0 ==> print_end(len, n) == len && print_end(len, n) - print_start(len, n) == if -n
            < len {
            -n
        } else {
            len
        },
{
}

/// Every record that `found` keeps matches the word, and each record that
/// matches is kept.
pub proof fn lemma_found_exact(s: Seq<ProfileView>, word: Seq<char>)
    ensures
        forall|k: int| 0 <= k < found(s, word).len() ==> matches_word(#[trigger] found(s, word)[k], word),
        forall|k: int| 0 <= k < s.len() && matches_word(s[k], word) ==> found(s, word).contains(#[trigger] s[k]),
        (forall|k: int| 0 <= k < s.len() ==> !matches_word(#[trigger] s[k], word)) ==> found(s, word).len() == 0,
    decreases s.len(),
{
    if s.len() > 0 {
        let t = s.drop_last();
        lemma_found_exact(t, word);
        assert forall|k: int| 0 <= k < s.len() && matches_word(s[k], word) implies found(s, word).contains(#[trigger] s[k]) by {
            if k < s.len() - 1 {
                assert(t[k] == s[k]);
                let j = choose|j: int| 0 <= j < found(t, word).len() && found(t, word)[j] == t[k];
                if matches_word(s.last(), word) {
                    assert(found(s, word)[j] == s[k]);
                }
            } else {
                assert(found(s, word)[found(s, word).len() - 1] == s[k]);
            }
        }
        if forall|k: int| 0 <= k < s.len() ==> !matches_word(#[trigger] s[k], word) {
            assert forall|k: int| 0 <= k < t.len() implies !matches_word(#[trigger] t[k], word) by {
                assert(t[k] == s[k]);
            }
            assert(!matches_word(s[s.len() - 1], word));
        }
    }
}

/// The file form of a store: each record's line form followed by a line end.
pub open spec fn csv_text(s: Seq<ProfileView>) -> Seq<char>
    decreases s.len(),
{
    if s.len() == 0 {
        Seq::empty()
    } else {
        csv_text(s.drop_last()) + line_text(s.last()).push('\n')
    }
}

/// The start of the range that `Print(n)` shows of a store of `len` records.
pub open spec fn print_start(len: int, n: int) -> int {
    if n < 0 {
        if len + n > 0 { len + n } else { 0 }
    } else {
        0
    }
}

/// The end of the range that `Print(n)` shows of a store of `len` records.
pub open spec fn print_end(len: int, n: int) -> int {
    if n > 0 && n < len {
        n
    } else {
        len
    }
}

/// Turns the count of `Print(nitems)` into a range of a store of `len`
/// records: the first `nitems` where it is positive, the last `-nitems`
/// where negative, all of them for zero.
pub fn print_range(len: usize, nitems: i32) -> (r: (usize, usize))
    ensures
        r.0 == print_start(len as int, nitems as int),
        r.1 == print_end(len as int, nitems as int),
        r.0 <= r.1 <= len,
{
    let mut s: usize = 0;
    let mut e: usize = len;
    if nitems > 0 && (nitems as usize) < len {
        e = nitems as usize;
    }
    if nitems < 0 {
        let n: u64 = if nitems == i32::MIN {
            0x8000_0000
        } else {
            (-nitems) as u64
        };
        if (len as u64) > n {
            s = len - n as usize;
        }
    }
    (s, e)
}

/// The ordered collection of records.
#[derive(Debug)]
pub struct ProfileDB {
    profiles: Vec<Profile>,
}

/// A sort key that names no field.
#[derive(Debug, Clone, Copy, PartialEq, Eq, Structural)]
pub struct KeyError(pub u8);

impl View for ProfileDB {
    type V = Seq<ProfileView>;

    closed spec fn view(&self) -> Seq<ProfileView> {
        views_of(self.profiles@)
    }
}

impl ProfileDB {
    pub fn new() -> (r: ProfileDB)
        ensures
            r@ == Seq::<ProfileView>::empty(),
    {
        let r = ProfileDB { profiles: Vec::new() };
        assert(r@ =~= Seq::<ProfileView>::empty());
        r
    }

    pub fn len(&self) -> (r: usize)
        ensures
            r == self@.len(),
    {
        self.profiles.len()
    }

    /// Adds a record at the end.
    pub fn push(&mut self, profile: Profile)
        ensures
            final(self)@ == old(self)@.push(profile@),
    {
        self.profiles.push(profile);
        assert(views_of(self.profiles@) =~= views_of(old(self).profiles@).push(profile@));
    }

    /// The record at `index`.
    pub fn get(&self, index: usize) -> (r: &Profile)
        requires
            index < self@.len(),
        ensures
            r@ == self@[index as int],
    {
        &self.profiles[index]
    }

    /// Reorders the records by the field that `key` names; ties keep their
    /// order. A key that names no field is refused and nothing changes.
    pub fn sort(&mut self, key: u8) -> (r: Result<(), KeyError>)
        ensures
            r is Ok <==> valid_key(key),
            r is Ok ==> exists|p: Seq<int>| stable_sort_by(p, final(self)@, old(self)@, key),
            r is Err ==> final(self)@ == old(self)@ && r == Err::<(), KeyError>(KeyError(key)),
    {
        if !(1 <= key && key <= 5) {
            return Err(KeyError(key));
        }
        let ghost before = views_of(self.profiles@);
        insertion_sort(&mut self.profiles, key);
        let ghost p = choose|p: Seq<int>| stable_sort_by(p, views_of(self.profiles@), before, key);
        assert(stable_sort_by(p, self@, old(self)@, key));
        Ok(())
    }

    /// The human-readable forms of the records from `start` to `end`.
    pub fn print(&self, start: usize, end: usize) -> (r: Vec<String>)
        requires
            start <= end <= self@.len(),
        ensures
            r@.len() == end - start,
            forall|k: int| 0 <= k < r@.len() ==> #[trigger] r@[k]@ == display_text(self@[start + k]),
    {
        let mut r: Vec<String> = Vec::new();
        let mut i: usize = start;
        while i < end
            invariant
                start <= i <= end <= self@.len(),
                self@ == views_of(self.profiles@),
                r@.len() == i - start,
                forall|k: int| 0 <= k < r@.len() ==> #[trigger] r@[k]@ == display_text(self@[start + k]),
            decreases end - i,
        {
            r.push(self.profiles[i].to_string());
            i = i + 1;
        }
        r
    }

    /// The human-readable forms of the records that `word` matches exactly
    /// in one field, in store order.
    pub fn find(&self, word: &str) -> (r: Vec<String>)
        ensures
            r@.len() == found(self@, word@).len(),
            forall|k: int| 0 <= k < r@.len() ==> #[trigger] r@[k]@ == display_text(found(self@, word@)[k]),
    {
        let mut r: Vec<String> = Vec::new();
        let mut i: usize = 0;
        while i < self.profiles.len()
            invariant
                i <= self@.len(),
                self@ == views_of(self.profiles@),
                r@.len() == found(self@.subrange(0, i as int), word@).len(),
                forall|k: int| 0 <= k < r@.len() ==> #[trigger] r@[k]@ == display_text(found(self@.subrange(0, i as int), word@)[k]),
            decreases self@.len() - i,
        {
            assert(self@.subrange(0, i + 1).drop_last() =~= self@.subrange(0, i as int));
            if self.profiles[i].find(word) {
                r.push(self.profiles[i].to_string());
            }
            i = i + 1;
        }
        assert(self@.subrange(0, self@.len() as int) =~= self@);
        r
    }

    /// The file form: each record's line form followed by a line end.
    pub fn to_csv(&self) -> (r: String)
        ensures
            r@ == csv_text(self@),
    {
        let mut v: Vec<char> = Vec::new();
        let mut i: usize = 0;
        while i < self.profiles.len()
            invariant
                i <= self@.len(),
                self@ == views_of(self.profiles@),
                v@ == csv_text(self@.subrange(0, i as int)),
            decreases self@.len() - i,
        {
            assert(self@.subrange(0, i + 1).drop_last() =~= self@.subrange(0, i as int));
            crate::text::push_str(&mut v, self.profiles[i].to_csv().as_str());
            v.push('\n');
            i = i + 1;
        }
        assert(self@.subrange(0, self@.len() as int) =~= self@);
        crate::text::from_chars(&v)
    }
}

} // verus!
