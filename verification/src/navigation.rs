//! The artifact filename grammar and the navigation matrix.
//!
//! Artifact files are named `<group>-<position>.<extension>`, where both
//! tokens are base-10 non-negative integers.  A directory scan turns a list
//! of file names into a sparse two-dimensional matrix of file paths: the
//! outer index is the group, the inner index the position, and slots below
//! the largest observed index that no file claims hold an explicit absent
//! value.  The file carrying the comic metadata and files bearing the
//! reserved temporary extension are excluded from the scan.

use vstd::prelude::*;
use vstd::string::StrSliceExecFns;

use crate::text::str_eq;

verus! {

// ---------------------------------------------------------------------------
// Decimal index tokens
// ---------------------------------------------------------------------------

pub open spec fn is_ascii_digit(c: char) -> bool {
    48 <= c as int <= 57
}

pub open spec fn digit_value(c: char) -> int {
    c as int - 48
}

pub open spec fn all_digits(s: Seq<char>) -> bool {
    forall|i: int| 0 <= i < s.len() ==> is_ascii_digit(s[i])
}

/// The value of a digit string read in base 10.
pub open spec fn decimal_value(s: Seq<char>) -> int
    decreases s.len(),
{
    if s.len() == 0 {
        0
    } else {
        decimal_value(s.drop_last()) * 10 + digit_value(s.last())
    }
}

/// A token denotes a matrix index when it is a non-empty digit string whose
/// value fits the machine's index type.
pub open spec fn valid_index_token(s: Seq<char>) -> bool {
    s.len() > 0 && all_digits(s) && decimal_value(s) <= usize::MAX as int
}

proof fn lemma_decimal_value_nonneg(s: Seq<char>)
    requires
        all_digits(s),
    ensures
        decimal_value(s) >= 0,
    decreases s.len(),
{
    if s.len() > 0 {
        assert(all_digits(s.drop_last()));
        lemma_decimal_value_nonneg(s.drop_last());
    }
}

proof fn lemma_decimal_prefix_monotone(s: Seq<char>, i: int, j: int)
    requires
        all_digits(s),
        0 <= i <= j <= s.len(),
    ensures
        decimal_value(s.take(i)) <= decimal_value(s.take(j)),
    decreases j - i,
{
    if i < j {
        lemma_decimal_prefix_monotone(s, i, j - 1);
        assert(s.take(j).drop_last() =~= s.take(j - 1));
        assert(all_digits(s.take(j - 1)));
        lemma_decimal_value_nonneg(s.take(j - 1));
        assert(decimal_value(s.take(j)) == decimal_value(s.take(j - 1)) * 10 + digit_value(s[j - 1]));
        assert(is_ascii_digit(s[j - 1]));
    }
}

/// Reads a token as a base-10 index.  Returns the value exactly when the
/// token is a non-empty digit string whose value fits in `usize`.
pub fn parse_index_token(s: &str) -> (r: Option<usize>)
    ensures
        match r {
            Some(n) => valid_index_token(s@) && n == decimal_value(s@),
            None => !valid_index_token(s@),
        },
{
    let len = s.unicode_len();
    if len == 0 {
        return None;
    }
    let mut acc: usize = 0;
    let mut i: usize = 0;
    while i < len
        invariant
            0 <= i <= len,
            len == s@.len(),
            all_digits(s@.take(i as int)),
            acc == decimal_value(s@.take(i as int)),
        decreases len - i,
    {
        let c = s.get_char(i);
        let cv = c as u32;
        if cv < 48 || cv > 57 {
            proof {
                assert(!is_ascii_digit(s@[i as int]));
            }
            return None;
        }
        let d = (cv - 48) as usize;
        proof {
            assert(is_ascii_digit(s@[i as int]));
            assert(d == digit_value(s@[i as int]));
        }
        if acc > (usize::MAX - d) / 10 {
            proof {
                let m = usize::MAX as int;
                vstd::arithmetic::div_mod::lemma_fundamental_div_mod(m - d, 10);
                assert(acc * 10 + d > m);
                assert(s@.take(i + 1).drop_last() =~= s@.take(i as int));
                assert(s@.take(i + 1).last() == s@[i as int]);
                assert(decimal_value(s@.take(i + 1)) > m);
                if all_digits(s@) {
                    lemma_decimal_prefix_monotone(s@, i + 1, len as int);
                    assert(s@.take(len as int) =~= s@);
                }
            }
            return None;
        }
        proof {
            let m = usize::MAX as int;
            vstd::arithmetic::div_mod::lemma_fundamental_div_mod(m - d, 10);
            assert(acc * 10 + d <= m);
            assert(s@.take(i + 1).drop_last() =~= s@.take(i as int));
            assert(s@.take(i + 1).last() == s@[i as int]);
        }
        acc = acc * 10 + d;
        i += 1;
    }
    proof {
        assert(s@.take(len as int) =~= s@);
    }
    Some(acc)
}

// ---------------------------------------------------------------------------
// File name anatomy: extension, stem, dash-separated tokens
// ---------------------------------------------------------------------------

/// Index of the last `.` that separates an extension, or -1 when the name
/// has none.  A dot in the leading position marks a hidden file, not an
/// extension boundary, so only indices from 1 on count.
pub open spec fn last_dot_index(name: Seq<char>) -> int
    decreases name.len(),
{
    if name.len() <= 1 {
        -1
    } else if name.last() == '.' {
        name.len() - 1
    } else {
        last_dot_index(name.drop_last())
    }
}

pub open spec fn ext_of(name: Seq<char>) -> Option<Seq<char>> {
    let i = last_dot_index(name);
    if i >= 1 {
        Some(name.subrange(i + 1, name.len() as int))
    } else {
        None
    }
}

pub open spec fn stem_of(name: Seq<char>) -> Seq<char> {
    let i = last_dot_index(name);
    if i >= 1 {
        name.subrange(0, i)
    } else {
        name
    }
}

proof fn lemma_last_dot_range(name: Seq<char>)
    ensures
        last_dot_index(name) == -1 || (1 <= last_dot_index(name) < name.len()
            && name[last_dot_index(name)] == '.'),
    decreases name.len(),
{
    if name.len() > 1 && name.last() != '.' {
        lemma_last_dot_range(name.drop_last());
    }
}

proof fn lemma_last_dot_take(name: Seq<char>, k: int)
    requires
        1 <= k <= name.len(),
        forall|j: int| k <= j < name.len() ==> name[j] != '.',
    ensures
        last_dot_index(name) == last_dot_index(name.take(k)),
    decreases name.len(),
{
    if k == name.len() {
        assert(name.take(k) =~= name);
    } else {
        assert(name.last() != '.');
        let prev = name.take(name.len() - 1);
        assert(name.drop_last() =~= prev);
        assert(forall|j: int| k <= j < prev.len() ==> prev[j] != '.');
        lemma_last_dot_take(prev, k);
        assert(prev.take(k) =~= name.take(k));
    }
}

/// Finds the boundary of the extension: the index of the final dot, where a
/// dot in the leading position does not count.
fn find_last_dot(name: &str) -> (r: Option<usize>)
    ensures
        match r {
            Some(i) => last_dot_index(name@) == i,
            None => last_dot_index(name@) == -1,
        },
{
    let len = name.unicode_len();
    let mut k = len;
    while k > 1
        invariant
            k <= len,
            len == name@.len(),
            forall|j: int| k <= j < len ==> name@[j] != '.',
        decreases k,
    {
        let c = name.get_char(k - 1);
        if c == '.' {
            proof {
                lemma_last_dot_take(name@, k as int);
                assert(name@.take(k as int).last() == name@[k - 1]);
            }
            return Some(k - 1);
        }
        k -= 1;
    }
    proof {
        if len >= 1 {
            lemma_last_dot_take(name@, 1);
        }
    }
    None
}

/// Index of the first `-` in a string, or its length when there is none.
pub open spec fn first_dash_index(s: Seq<char>) -> int
    decreases s.len(),
{
    if s.len() == 0 {
        0
    } else if s[0] == '-' {
        0
    } else {
        1 + first_dash_index(s.drop_first())
    }
}

proof fn lemma_first_dash_at(s: Seq<char>, i: int)
    requires
        0 <= i <= s.len(),
        forall|j: int| 0 <= j < i ==> s[j] != '-',
        i < s.len() ==> s[i] == '-',
    ensures
        first_dash_index(s) == if i < s.len() { i } else { s.len() as int },
    decreases s.len(),
{
    if s.len() > 0 && s[0] != '-' {
        assert(i >= 1);
        lemma_first_dash_at(s.drop_first(), i - 1);
    }
}

fn find_first_dash(s: &str) -> (r: usize)
    ensures
        r == first_dash_index(s@),
        r <= s@.len(),
{
    let len = s.unicode_len();
    let mut i: usize = 0;
    while i < len
        invariant
            i <= len,
            len == s@.len(),
            forall|j: int| 0 <= j < i ==> s@[j] != '-',
        decreases len - i,
    {
        let c = s.get_char(i);
        if c == '-' {
            proof {
                lemma_first_dash_at(s@, i as int);
            }
            return i;
        }
        i += 1;
    }
    proof {
        lemma_first_dash_at(s@, len as int);
    }
    len
}

/// The part of a stem before its first dash.
pub open spec fn first_token(stem: Seq<char>) -> Seq<char> {
    stem.take(first_dash_index(stem))
}

/// Whether a dash leaves room for a second token.
pub open spec fn has_second_token(stem: Seq<char>) -> bool {
    first_dash_index(stem) < stem.len()
}

/// The part of a stem between its first dash and the following dash or end.
pub open spec fn second_token(stem: Seq<char>) -> Seq<char> {
    let rest = stem.skip(first_dash_index(stem) + 1);
    rest.take(first_dash_index(rest))
}

// ---------------------------------------------------------------------------
// Entry classification
// ---------------------------------------------------------------------------

/// Name of the metadata file that every comic directory carries.
pub open spec fn spec_metadata_name() -> Seq<char> {
    "data.json"@
}

/// Extension that marks a file as temporary.
pub open spec fn spec_tmp_extension() -> Seq<char> {
    "tmp"@
}

/// Reserved names are left out of the navigation matrix.
pub open spec fn entry_excluded(name: Seq<char>) -> bool {
    name == spec_metadata_name() || ext_of(name) == Some(spec_tmp_extension())
}

/// The matrix cell that a well-formed artifact name addresses.
pub open spec fn entry_cell(name: Seq<char>) -> Option<(int, int)> {
    let stem = stem_of(name);
    if valid_index_token(first_token(stem)) && has_second_token(stem)
        && valid_index_token(second_token(stem)) {
        Some((decimal_value(first_token(stem)), decimal_value(second_token(stem))))
    } else {
        None
    }
}

/// A name passes the scan when it is excluded or addresses a cell.
pub open spec fn entry_ok(name: Seq<char>) -> bool {
    entry_excluded(name) || entry_cell(name) is Some
}

/// What went wrong with a name that neither is excluded nor addresses a
/// cell.  The first token is read before the dash is looked for, so a stem
/// without a dash whose whole text is not a number reports the bad token;
/// a stem whose first token reads but which has no dash is missing its
/// second token, index 1 counting from 0.
pub enum ScanFault {
    NoSecondToken { stem: Seq<char> },
    BadToken { token: Seq<char> },
}

pub open spec fn entry_fault(name: Seq<char>) -> ScanFault {
    let stem = stem_of(name);
    if !valid_index_token(first_token(stem)) {
        ScanFault::BadToken { token: first_token(stem) }
    } else if !has_second_token(stem) {
        ScanFault::NoSecondToken { stem: stem }
    } else {
        ScanFault::BadToken { token: second_token(stem) }
    }
}

/// Outcome of reading one directory entry's name.
#[derive(Debug, PartialEq)]
pub enum EntryOutcome {
    /// The name is reserved and takes no part in the matrix.
    Excluded,
    /// The name addresses the cell at (group, position).
    Cell { group: usize, position: usize },
    /// The stem has no dash, so no second token exists.
    NoSecondToken { stem: String },
    /// A token is not a base-10 index.
    BadToken { token: String },
}

/// Classifies one file name: reserved names are excluded, well-formed names
/// yield their (group, position) cell, anything else reports its fault.
pub fn parse_entry_name(name: &str) -> (r: EntryOutcome)
    ensures
        match r {
            EntryOutcome::Excluded => entry_excluded(name@),
            EntryOutcome::Cell { group, position } => !entry_excluded(name@)
                && entry_cell(name@) == Some((group as int, position as int)),
            EntryOutcome::NoSecondToken { stem } => !entry_ok(name@)
                && entry_fault(name@) == (ScanFault::NoSecondToken { stem: stem@ }),
            EntryOutcome::BadToken { token } => !entry_ok(name@)
                && entry_fault(name@) == (ScanFault::BadToken { token: token@ }),
        },
{
    if str_eq(name, "data.json") {
        return EntryOutcome::Excluded;
    }
    let len = name.unicode_len();
    let stem: &str = match find_last_dot(name) {
        Some(i) => {
            proof {
                lemma_last_dot_range(name@);
            }
            let ext = name.substring_char(i + 1, len);
            if str_eq(ext, "tmp") {
                return EntryOutcome::Excluded;
            }
            name.substring_char(0, i)
        },
        None => name,
    };
    proof {
        assert(stem@ == stem_of(name@));
        assert(!entry_excluded(name@));
    }
    let stem_len = stem.unicode_len();
    let d = find_first_dash(stem);
    let tok0 = stem.substring_char(0, d);
    proof {
        assert(tok0@ =~= first_token(stem@));
    }
    let group = match parse_index_token(tok0) {
        Some(g) => g,
        None => {
            return EntryOutcome::BadToken { token: tok0.to_owned() };
        },
    };
    if d == stem_len {
        return EntryOutcome::NoSecondToken { stem: stem.to_owned() };
    }
    let rest = stem.substring_char(d + 1, stem_len);
    proof {
        assert(rest@ =~= stem@.skip(first_dash_index(stem@) + 1));
    }
    let d2 = find_first_dash(rest);
    let tok1 = rest.substring_char(0, d2);
    proof {
        assert(tok1@ =~= second_token(stem@));
    }
    match parse_index_token(tok1) {
        Some(position) => EntryOutcome::Cell { group, position },
        None => EntryOutcome::BadToken { token: tok1.to_owned() },
    }
}

// ---------------------------------------------------------------------------
// The navigation matrix
// ---------------------------------------------------------------------------

/// Failure of a single navigation resolution.  The variants that carry an
/// io condition are built by the caller that performs the listing.
#[derive(Debug, PartialEq)]
pub enum GetComicNavigationError {
    CantReadDirectory(String),
    CantReadDirEntry(String),
    ComicDontExist(usize),
    FileWithNoName(String),
    CantConvertOsToString(String),
    FileWithNoStem(String),
    CantGetSplitedDash(u32, String),
    CantConvertStringFromPathToInt(String, String),
}

pub open spec fn row_view(row: Seq<Option<String>>) -> Seq<Option<Seq<char>>> {
    row.map_values(
        |c: Option<String>|
            match c {
                Some(s) => Some(s@),
                None => None,
            },
    )
}

pub open spec fn matrix_view(m: Seq<Vec<Option<String>>>) -> Seq<Seq<Option<Seq<char>>>> {
    m.map_values(|row: Vec<Option<String>>| row_view(row@))
}

pub open spec fn names_view(names: Seq<String>) -> Seq<Seq<char>> {
    names.map_values(|n: String| n@)
}

/// The path under which a directory entry is recorded in the matrix.
pub open spec fn join_path(dir: Seq<char>, name: Seq<char>) -> Seq<char> {
    dir + seq!['/'] + name
}

pub open spec fn pad_outer(m: Seq<Seq<Option<Seq<char>>>>, g: int) -> Seq<Seq<Option<Seq<char>>>> {
    if g < m.len() {
        m
    } else {
        m + Seq::new((g + 1 - m.len()) as nat, |q: int| Seq::<Option<Seq<char>>>::empty())
    }
}

pub open spec fn pad_row(row: Seq<Option<Seq<char>>>, p: int) -> Seq<Option<Seq<char>>> {
    if p < row.len() {
        row
    } else {
        row + Seq::new((p + 1 - row.len()) as nat, |q: int| None::<Seq<char>>)
    }
}

/// Grows the matrix until the addressed cell exists, then sets it.
pub open spec fn place_cell(
    m: Seq<Seq<Option<Seq<char>>>>,
    g: int,
    p: int,
    path: Seq<char>,
) -> Seq<Seq<Option<Seq<char>>>> {
    let outer = pad_outer(m, g);
    outer.update(g, pad_row(outer[g], p).update(p, Some(path)))
}

/// The matrix that a scan of `names` inside `dir` yields, entries placed in
/// listing order so that a later entry addressing an occupied cell wins.
pub open spec fn scan_names(dir: Seq<char>, names: Seq<Seq<char>>) -> Seq<Seq<Option<Seq<char>>>>
    decreases names.len(),
{
    if names.len() == 0 {
        Seq::empty()
    } else {
        let prev = scan_names(dir, names.drop_last());
        let name = names.last();
        if entry_excluded(name) {
            prev
        } else {
            match entry_cell(name) {
                Some(cell) => place_cell(prev, cell.0, cell.1, join_path(dir, name)),
                None => prev,
            }
        }
    }
}

pub open spec fn scan_all_ok(names: Seq<Seq<char>>) -> bool {
    forall|i: int| 0 <= i < names.len() ==> entry_ok(names[i])
}

/// The position of the entry on which a scan gives up.
pub open spec fn first_fault_index(names: Seq<Seq<char>>) -> int
    decreases names.len(),
{
    if names.len() == 0 {
        0
    } else if !entry_ok(names[0]) {
        0
    } else {
        1 + first_fault_index(names.drop_first())
    }
}

proof fn lemma_first_fault_at(names: Seq<Seq<char>>, i: int)
    requires
        0 <= i < names.len(),
        forall|j: int| 0 <= j < i ==> entry_ok(names[j]),
        !entry_ok(names[i]),
    ensures
        first_fault_index(names) == i,
    decreases i,
{
    if i > 0 {
        assert(forall|j: int| 0 <= j < i - 1 ==> names.drop_first()[j] == names[j + 1]);
        lemma_first_fault_at(names.drop_first(), i - 1);
    }
}

/// Relates a scan error to the entry it reports.
pub open spec fn scan_error_matches(
    e: &GetComicNavigationError,
    dir: Seq<char>,
    name: Seq<char>,
) -> bool {
    match e {
        GetComicNavigationError::CantGetSplitedDash(k, s) => *k == 1 && entry_fault(name)
            == (ScanFault::NoSecondToken { stem: s@ }),
        GetComicNavigationError::CantConvertStringFromPathToInt(t, p) => entry_fault(name)
            == (ScanFault::BadToken { token: t@ }) && p@ == join_path(dir, name),
        _ => false,
    }
}

/// Exclusion law: a file named as the metadata file, or bearing the
/// reserved temporary extension, never appears in the matrix.  Every
/// occupied cell holds the path of a listing entry that is not reserved
/// and whose name addresses exactly that cell.
pub proof fn lemma_scan_excludes_reserved(dir: Seq<char>, names: Seq<Seq<char>>, g: int, p: int)
    requires
        0 <= g < scan_names(dir, names).len(),
        0 <= p < scan_names(dir, names)[g].len(),
        scan_names(dir, names)[g][p] is Some,
    ensures
        exists|i: int|
            0 <= i < names.len() && !entry_excluded(names[i]) && entry_cell(names[i]) == Some(
                (g, p),
            ) && scan_names(dir, names)[g][p] == Some(join_path(dir, names[i])),
    decreases names.len(),
{
    let m = scan_names(dir, names);
    let prev = scan_names(dir, names.drop_last());
    let name = names.last();
    if entry_excluded(name) || entry_cell(name) is None {
        lemma_scan_excludes_reserved(dir, names.drop_last(), g, p);
        let i = choose|i: int|
            0 <= i < names.drop_last().len() && !entry_excluded(names.drop_last()[i]) && entry_cell(
                names.drop_last()[i],
            ) == Some((g, p)) && prev[g][p] == Some(join_path(dir, names.drop_last()[i]));
        assert(names[i] == names.drop_last()[i]);
        assert(0 <= i < names.len() && !entry_excluded(names[i]) && entry_cell(names[i]) == Some(
            (g, p),
        ) && m[g][p] == Some(join_path(dir, names[i])));
    } else {
        match entry_cell(name) {
            Some(cell) => {
                lemma_decimal_value_nonneg(first_token(stem_of(name)));
                lemma_decimal_value_nonneg(second_token(stem_of(name)));
                assert(cell.0 >= 0 && cell.1 >= 0);
                let outer = pad_outer(prev, cell.0);
                let row = pad_row(outer[cell.0], cell.1);
                if g == cell.0 && p == cell.1 {
                    assert(m[g][p] == Some(join_path(dir, name)));
                    let i = names.len() - 1;
                    assert(0 <= i < names.len() && !entry_excluded(names[i]) && entry_cell(
                        names[i],
                    ) == Some((g, p)) && m[g][p] == Some(join_path(dir, names[i])));
                } else {
                    if g == cell.0 {
                        assert(m[g] == row.update(cell.1, Some(join_path(dir, name))));
                        assert(m[g][p] == row[p]);
                        if p < outer[g].len() {
                            assert(row[p] == outer[g][p]);
                        } else {
                            assert(row[p] is None);
                        }
                        assert(g < prev.len() || outer[g].len() == 0);
                        assert(g < prev.len() && p < prev[g].len() && prev[g][p] == m[g][p]);
                    } else {
                        assert(m[g] == outer[g]);
                        if g < prev.len() {
                            assert(outer[g] == prev[g]);
                        } else {
                            assert(outer[g].len() == 0);
                        }
                        assert(g < prev.len() && p < prev[g].len() && prev[g][p] == m[g][p]);
                    }
                    lemma_scan_excludes_reserved(dir, names.drop_last(), g, p);
                    let i = choose|i: int|
                        0 <= i < names.drop_last().len() && !entry_excluded(names.drop_last()[i])
                            && entry_cell(names.drop_last()[i]) == Some((g, p)) && prev[g][p]
                            == Some(join_path(dir, names.drop_last()[i]));
                    assert(names[i] == names.drop_last()[i]);
                    assert(0 <= i < names.len() && !entry_excluded(names[i]) && entry_cell(
                        names[i],
                    ) == Some((g, p)) && m[g][p] == Some(join_path(dir, names[i])));
                }
            },
            None => {},
        }
    }
}

/// Grows `m` until cell (group, position) exists, padding new slots with the
/// absent value, then stores `path` there.
pub fn place_in_matrix(
    m: &mut Vec<Vec<Option<String>>>,
    group: usize,
    position: usize,
    path: String,
)
    ensures
        matrix_view(final(m)@) == place_cell(
            matrix_view(old(m)@),
            group as int,
            position as int,
            path@,
        ),
{
    while m.len() <= group
        invariant
            old(m)@.len() <= m@.len() <= vstd::math::max(old(m)@.len() as int, group as int + 1),
            matrix_view(m@) == matrix_view(old(m)@) + Seq::new(
                (m@.len() - old(m)@.len()) as nat,
                |q: int| Seq::<Option<Seq<char>>>::empty(),
            ),
        decreases group - m@.len() + 1,
    {
        let ghost mprev = m@;
        m.push(Vec::new());
        proof {
            assert(row_view(m@.last()@) =~= Seq::<Option<Seq<char>>>::empty());
            assert(matrix_view(m@) =~= matrix_view(mprev).push(row_view(m@.last()@)));
            assert(matrix_view(m@) =~= matrix_view(old(m)@) + Seq::new(
                (m@.len() - old(m)@.len()) as nat,
                |q: int| Seq::<Option<Seq<char>>>::empty(),
            ));
        }
    }
    proof {
        assert(matrix_view(m@) =~= pad_outer(matrix_view(old(m)@), group as int));
    }
    let ghost padded = matrix_view(m@);
    let ghost mpadded = m@;
    let mut row = m.remove(group);
    let ghost row0 = row_view(row@);
    proof {
        assert(row0 == padded[group as int]);
    }
    while row.len() <= position
        invariant
            row0.len() <= row@.len() <= vstd::math::max(row0.len() as int, position as int + 1),
            row_view(row@) == row0 + Seq::new(
                (row@.len() - row0.len()) as nat,
                |q: int| None::<Seq<char>>,
            ),
        decreases position - row@.len() + 1,
    {
        let ghost rprev = row@;
        row.push(None);
        proof {
            assert(row_view(row@) =~= row_view(rprev).push(None::<Seq<char>>));
            assert(row_view(row@) =~= row0 + Seq::new(
                (row@.len() - row0.len()) as nat,
                |q: int| None::<Seq<char>>,
            ));
        }
    }
    proof {
        assert(row_view(row@) =~= pad_row(row0, position as int));
    }
    let ghost grown = row_view(row@);
    let ghost rgrown = row@;
    row.remove(position);
    proof {
        assert(row@ == rgrown.remove(position as int));
    }
    row.insert(position, Some(path));
    proof {
        assert(row@ =~= rgrown.update(position as int, Some(path)));
        assert(row_view(row@) =~= grown.update(position as int, Some(path@)));
    }
    m.insert(group, row);
    proof {
        assert(m@ =~= mpadded.update(group as int, row));
        assert(matrix_view(m@) =~= place_cell(
            matrix_view(old(m)@),
            group as int,
            position as int,
            path@,
        ));
    }
}

/// Scans the names of the files inside a comic's directory and builds its
/// navigation matrix.  Reserved names are skipped; the first ill-formed name
/// aborts the scan with the error that describes it.
pub fn scan_comic_directory(dir: &String, names: &Vec<String>) -> (r: Result<
    Vec<Vec<Option<String>>>,
    GetComicNavigationError,
>)
    ensures
        match r {
            Ok(m) => scan_all_ok(names_view(names@)) && matrix_view(m@) == scan_names(
                dir@,
                names_view(names@),
            ),
            Err(e) => !scan_all_ok(names_view(names@)) && scan_error_matches(
                &e,
                dir@,
                names_view(names@)[first_fault_index(names_view(names@))],
            ),
        },
{
    let ghost nv = names_view(names@);
    let mut result: Vec<Vec<Option<String>>> = Vec::new();
    let mut idx: usize = 0;
    while idx < names.len()
        invariant
            idx <= names@.len(),
            nv == names_view(names@),
            forall|j: int| 0 <= j < idx ==> entry_ok(nv[j]),
            matrix_view(result@) == scan_names(dir@, nv.take(idx as int)),
        decreases names@.len() - idx,
    {
        let name = &names[idx];
        proof {
            assert(nv[idx as int] == name@);
        }
        match parse_entry_name(name.as_str()) {
            EntryOutcome::Excluded => {
                proof {
                    assert(nv.take(idx + 1).drop_last() =~= nv.take(idx as int));
                    assert(nv.take(idx + 1).last() == nv[idx as int]);
                }
            },
            EntryOutcome::Cell { group, position } => {
                let mut path = dir.clone();
                path.append("/");
                path.append(name.as_str());
                proof {
                    reveal_strlit("/");
                    assert("/"@ =~= seq!['/']);
                    assert(path@ == join_path(dir@, name@));
                }
                place_in_matrix(&mut result, group, position, path);
                proof {
                    assert(nv.take(idx + 1).drop_last() =~= nv.take(idx as int));
                    assert(nv.take(idx + 1).last() == nv[idx as int]);
                }
            },
            EntryOutcome::NoSecondToken { stem } => {
                proof {
                    lemma_first_fault_at(nv, idx as int);
                }
                return Err(GetComicNavigationError::CantGetSplitedDash(1, stem));
            },
            EntryOutcome::BadToken { token } => {
                let mut path = dir.clone();
                path.append("/");
                path.append(name.as_str());
                proof {
                    reveal_strlit("/");
                    assert("/"@ =~= seq!['/']);
                    lemma_first_fault_at(nv, idx as int);
                }
                return Err(GetComicNavigationError::CantConvertStringFromPathToInt(token, path));
            },
        }
        idx += 1;
    }
    proof {
        assert(nv.take(names@.len() as int) =~= nv);
    }
    Ok(result)
}

} // verus!
