//! The tracker's persisted form: one object whose keys are identifiers
//! written as decimal strings and whose values are two-element arrays,
//! `{"7":[2,5]}`.  The renderer emits exactly this shape; the reader
//! accepts extra whitespace between tokens and lets a repeated key
//! overwrite the earlier pair, and rejects everything else -- in
//! particular a number with a leading zero, which no well-formed file
//! holds.

use vstd::prelude::*;

verus! {

// ---------------------------------------------------------------------------
// Bytes
// ---------------------------------------------------------------------------

pub open spec fn is_ws_byte(b: u8) -> bool {
    b == 32 || b == 9 || b == 10 || b == 13
}

pub open spec fn is_digit_byte(b: u8) -> bool {
    48 <= b <= 57
}

/// First position at or after `i` that holds no whitespace.
pub open spec fn skip_ws(s: Seq<u8>, i: int) -> int
    decreases s.len() - i,
{
    if 0 <= i < s.len() && is_ws_byte(s[i]) {
        skip_ws(s, i + 1)
    } else {
        i
    }
}

/// End of the digit run that starts at `i`.
pub open spec fn digits_end(s: Seq<u8>, i: int) -> int
    decreases s.len() - i,
{
    if 0 <= i < s.len() && is_digit_byte(s[i]) {
        digits_end(s, i + 1)
    } else {
        i
    }
}

pub open spec fn byte_digits_value(s: Seq<u8>) -> int
    decreases s.len(),
{
    if s.len() == 0 {
        0
    } else {
        byte_digits_value(s.drop_last()) * 10 + (s.last() - 48)
    }
}

proof fn lemma_skip_ws_bounds(s: Seq<u8>, i: int)
    requires
        0 <= i <= s.len(),
    ensures
        i <= skip_ws(s, i) <= s.len(),
        skip_ws(s, i) < s.len() ==> !is_ws_byte(s[skip_ws(s, i)]),
    decreases s.len() - i,
{
    if i < s.len() && is_ws_byte(s[i]) {
        lemma_skip_ws_bounds(s, i + 1);
    }
}

proof fn lemma_digits_end_bounds(s: Seq<u8>, i: int)
    requires
        0 <= i <= s.len(),
    ensures
        i <= digits_end(s, i) <= s.len(),
        digits_end(s, i) < s.len() ==> !is_digit_byte(s[digits_end(s, i)]),
        forall|j: int| i <= j < digits_end(s, i) ==> is_digit_byte(s[j]),
    decreases s.len() - i,
{
    if i < s.len() && is_digit_byte(s[i]) {
        lemma_digits_end_bounds(s, i + 1);
    }
}

fn skip_ws_exec(s: &[u8], i: usize) -> (r: usize)
    requires
        i <= s@.len(),
    ensures
        r == skip_ws(s@, i as int),
        i <= r <= s@.len(),
{
    let mut k = i;
    while k < s.len()
        invariant
            i <= k <= s@.len(),
            skip_ws(s@, i as int) == skip_ws(s@, k as int),
        decreases s@.len() - k,
    {
        let b = s[k];
        if !(b == 32 || b == 9 || b == 10 || b == 13) {
            proof {
                lemma_skip_ws_bounds(s@, k as int);
            }
            return k;
        }
        k += 1;
    }
    k
}

fn digits_end_exec(s: &[u8], i: usize) -> (r: usize)
    requires
        i <= s@.len(),
    ensures
        r == digits_end(s@, i as int),
        i <= r <= s@.len(),
{
    let mut k = i;
    while k < s.len()
        invariant
            i <= k <= s@.len(),
            digits_end(s@, i as int) == digits_end(s@, k as int),
        decreases s@.len() - k,
    {
        let b = s[k];
        if !(48 <= b && b <= 57) {
            proof {
                lemma_digits_end_bounds(s@, k as int);
            }
            return k;
        }
        k += 1;
    }
    k
}

// ---------------------------------------------------------------------------
// Numbers
// ---------------------------------------------------------------------------

/// The number that starts at `i`: its value and the position after its
/// digits.  Nothing when no digit stands at `i`, when a multi-digit run
/// starts with a zero, or when the value does not fit the index type.
pub open spec fn num_at(s: Seq<u8>, i: int) -> Option<(usize, int)> {
    let j = digits_end(s, i);
    if j > i && (s[i] != 48 || j == i + 1) && byte_digits_value(s.subrange(i, j))
        <= usize::MAX as int {
        Some((byte_digits_value(s.subrange(i, j)) as usize, j))
    } else {
        None
    }
}

proof fn lemma_byte_digits_prefix_monotone(s: Seq<u8>, i: int, j: int)
    requires
        forall|k: int| 0 <= k < s.len() ==> is_digit_byte(#[trigger] s[k]),
        0 <= i <= j <= s.len(),
    ensures
        byte_digits_value(s.take(i)) <= byte_digits_value(s.take(j)),
    decreases j - i,
{
    if i < j {
        lemma_byte_digits_prefix_monotone(s, i, j - 1);
        assert(s.take(j).drop_last() =~= s.take(j - 1));
        lemma_byte_digits_nonneg_all(s.take(j - 1));
        assert(is_digit_byte(s[j - 1]));
    }
}

proof fn lemma_byte_digits_nonneg_all(s: Seq<u8>)
    requires
        forall|k: int| 0 <= k < s.len() ==> is_digit_byte(#[trigger] s[k]),
    ensures
        byte_digits_value(s) >= 0,
    decreases s.len(),
{
    if s.len() > 0 {
        assert(s.drop_last() =~= s.take(s.len() - 1));
        assert(forall|k: int| 0 <= k < s.drop_last().len() ==> is_digit_byte(
            #[trigger] s.drop_last()[k],
        ));
        lemma_byte_digits_nonneg_all(s.drop_last());
    }
}

/// Reads the number that starts at `i`.
fn num_at_exec(s: &[u8], i: usize) -> (r: Option<(usize, usize)>)
    requires
        i <= s@.len(),
    ensures
        match r {
            Some(v) => num_at(s@, i as int) == Some((v.0, v.1 as int)) && i < v.1 <= s@.len(),
            None => num_at(s@, i as int) is None,
        },
{
    let end = digits_end_exec(s, i);
    proof {
        lemma_digits_end_bounds(s@, i as int);
    }
    if end == i {
        return None;
    }
    if s[i] == 48 && end > i + 1 {
        return None;
    }
    let ghost digits = s@.subrange(i as int, end as int);
    proof {
        assert(forall|k: int| 0 <= k < digits.len() ==> is_digit_byte(#[trigger] digits[k]));
    }
    let mut acc: usize = 0;
    let mut k = i;
    while k < end
        invariant
            i <= k <= end <= s@.len(),
            end == digits_end(s@, i as int),
            s@[i as int] != 48 || end == i + 1,
            digits == s@.subrange(i as int, end as int),
            forall|j: int| 0 <= j < digits.len() ==> is_digit_byte(#[trigger] digits[j]),
            acc == byte_digits_value(digits.take(k - i)),
        decreases end - k,
    {
        let b = s[k];
        proof {
            assert(digits[k - i] == s@[k as int]);
            assert(is_digit_byte(b));
            assert(digits.take(k - i + 1).drop_last() =~= digits.take(k - i));
            assert(digits.take(k - i + 1).last() == digits[k - i]);
        }
        let d = (b - 48) as usize;
        if acc > (usize::MAX - d) / 10 {
            proof {
                let m = usize::MAX as int;
                vstd::arithmetic::div_mod::lemma_fundamental_div_mod(m - d, 10);
                assert(byte_digits_value(digits.take(k - i + 1)) > m);
                lemma_byte_digits_prefix_monotone(digits, k - i + 1, digits.len() as int);
                assert(digits.take(digits.len() as int) =~= digits);
                assert(byte_digits_value(digits) > usize::MAX as int);
                assert(num_at(s@, i as int) is None);
            }
            return None;
        }
        proof {
            let m = usize::MAX as int;
            vstd::arithmetic::div_mod::lemma_fundamental_div_mod(m - d, 10);
        }
        acc = acc * 10 + d;
        k += 1;
    }
    proof {
        assert(digits.take((end - i) as int) =~= digits);
    }
    Some((acc, end))
}

// ---------------------------------------------------------------------------
// Entries
// ---------------------------------------------------------------------------

/// Overwrites the first pair holding `key`, or appends a new pair.
pub open spec fn insert_entry(
    entries: Seq<(usize, (usize, usize))>,
    key: usize,
    val: (usize, usize),
) -> Seq<(usize, (usize, usize))>
    decreases entries.len(),
{
    if entries.len() == 0 {
        seq![(key, val)]
    } else if entries[0].0 == key {
        seq![(key, val)] + entries.drop_first()
    } else {
        seq![entries[0]] + insert_entry(entries.drop_first(), key, val)
    }
}

/// One `"key":[group,position]` item, read from position `i`: the parsed
/// pair and the position after the closing bracket.
pub open spec fn entry_at(s: Seq<u8>, i: int) -> Option<((usize, (usize, usize)), int)> {
    if !(0 <= i < s.len() && s[i] == 34) {
        None
    } else {
        match num_at(s, i + 1) {
            None => None,
            Some((key, j)) => {
                if !(j < s.len() && s[j] == 34) {
                    None
                } else {
                    let c = skip_ws(s, j + 1);
                    if !(c < s.len() && s[c] == 58) {
                        None
                    } else {
                        let b = skip_ws(s, c + 1);
                        if !(b < s.len() && s[b] == 91) {
                            None
                        } else {
                            match num_at(s, skip_ws(s, b + 1)) {
                                None => None,
                                Some((gv, g1)) => {
                                    let cm = skip_ws(s, g1);
                                    if !(cm < s.len() && s[cm] == 44) {
                                        None
                                    } else {
                                        match num_at(s, skip_ws(s, cm + 1)) {
                                            None => None,
                                            Some((pv, p1)) => {
                                                let e = skip_ws(s, p1);
                                                if !(e < s.len() && s[e] == 93) {
                                                    None
                                                } else {
                                                    Some(((key, (gv, pv)), e + 1))
                                                }
                                            },
                                        }
                                    }
                                },
                            }
                        }
                    }
                }
            },
        }
    }
}

/// The items from position `i` on, folded over `acc`, up to the closing
/// brace and the end of input.  The fuel bounds the recursion; one item
/// takes at least four bytes, so input length is always fuel enough.
pub open spec fn entries_from(
    s: Seq<u8>,
    i: int,
    acc: Seq<(usize, (usize, usize))>,
    fuel: nat,
) -> Option<Seq<(usize, (usize, usize))>>
    decreases fuel,
{
    if fuel == 0 {
        None
    } else {
        match entry_at(s, i) {
            None => None,
            Some((kv, j)) => {
                let acc2 = insert_entry(acc, kv.0, kv.1);
                let t = skip_ws(s, j);
                if t < s.len() && s[t] == 44 {
                    entries_from(s, skip_ws(s, t + 1), acc2, (fuel - 1) as nat)
                } else if t < s.len() && s[t] == 125 {
                    if skip_ws(s, t + 1) == s.len() {
                        Some(acc2)
                    } else {
                        None
                    }
                } else {
                    None
                }
            },
        }
    }
}

/// The pairs a persisted tracker file holds, or nothing when the input is
/// not of the persisted form.
pub open spec fn parse_tracker(s: Seq<u8>) -> Option<Seq<(usize, (usize, usize))>> {
    let i = skip_ws(s, 0);
    if !(i < s.len() && s[i] == 123) {
        None
    } else {
        let j = skip_ws(s, i + 1);
        if j < s.len() && s[j] == 125 {
            if skip_ws(s, j + 1) == s.len() {
                Some(Seq::empty())
            } else {
                None
            }
        } else {
            entries_from(s, j, Seq::empty(), s.len() as nat)
        }
    }
}

/// Reads one item.  Mirrors `entry_at`.
fn entry_at_exec(s: &[u8], i: usize) -> (r: Option<((usize, (usize, usize)), usize)>)
    requires
        i <= s@.len(),
    ensures
        match r {
            Some(v) => entry_at(s@, i as int) == Some((v.0, v.1 as int)) && i < v.1 <= s@.len(),
            None => entry_at(s@, i as int) is None,
        },
{
    if i >= s.len() || s[i] != 34 {
        return None;
    }
    let (key, j) = match num_at_exec(s, i + 1) {
        Some(v) => v,
        None => {
            return None;
        },
    };
    if j >= s.len() || s[j] != 34 {
        return None;
    }
    let c = skip_ws_exec(s, j + 1);
    if c >= s.len() || s[c] != 58 {
        return None;
    }
    let b = skip_ws_exec(s, c + 1);
    if b >= s.len() || s[b] != 91 {
        return None;
    }
    let g0 = skip_ws_exec(s, b + 1);
    let (gv, g1) = match num_at_exec(s, g0) {
        Some(v) => v,
        None => {
            return None;
        },
    };
    let cm = skip_ws_exec(s, g1);
    if cm >= s.len() || s[cm] != 44 {
        return None;
    }
    let p0 = skip_ws_exec(s, cm + 1);
    let (pv, p1) = match num_at_exec(s, p0) {
        Some(v) => v,
        None => {
            return None;
        },
    };
    let e = skip_ws_exec(s, p1);
    if e >= s.len() || s[e] != 93 {
        return None;
    }
    Some(((key, (gv, pv)), e + 1))
}

/// Inserts like `insert_entry`: overwrites the first pair holding the key
/// or appends a new pair.
pub(crate) fn insert_entry_exec(
    entries: &mut Vec<(usize, (usize, usize))>,
    key: usize,
    val: (usize, usize),
)
    ensures
        final(entries)@ == insert_entry(old(entries)@, key, val),
{
    let ghost all = entries@;
    let mut i: usize = 0;
    while i < entries.len()
        invariant
            i <= all.len(),
            entries@ == all,
            all == old(entries)@,
            forall|j: int| 0 <= j < i ==> all[j].0 != key,
        decreases all.len() - i,
    {
        if entries[i].0 == key {
            entries.remove(i);
            entries.insert(i, (key, val));
            proof {
                assert(entries@ =~= all.update(i as int, (key, val)));
                lemma_insert_entry_found(all, i as int, key, val);
                assert(entries@ == insert_entry(all, key, val));
            }
            return ;
        }
        i += 1;
    }
    entries.push((key, val));
    proof {
        lemma_insert_entry_absent(all, key, val);
        assert(entries@ =~= all.push((key, val)));
    }
}

proof fn lemma_insert_entry_found(
    entries: Seq<(usize, (usize, usize))>,
    i: int,
    key: usize,
    val: (usize, usize),
)
    requires
        0 <= i < entries.len(),
        entries[i].0 == key,
        forall|j: int| 0 <= j < i ==> entries[j].0 != key,
    ensures
        insert_entry(entries, key, val) == entries.update(i, (key, val)),
    decreases entries.len(),
{
    if i == 0 {
        assert(insert_entry(entries, key, val) =~= entries.update(0, (key, val)));
    } else {
        assert(forall|j: int|
            0 <= j < i - 1 ==> #[trigger] entries.drop_first()[j].0 == entries[j + 1].0);
        lemma_insert_entry_found(entries.drop_first(), i - 1, key, val);
        assert(insert_entry(entries, key, val) =~= entries.update(i, (key, val)));
    }
}

proof fn lemma_insert_entry_absent(
    entries: Seq<(usize, (usize, usize))>,
    key: usize,
    val: (usize, usize),
)
    requires
        forall|j: int| 0 <= j < entries.len() ==> entries[j].0 != key,
    ensures
        insert_entry(entries, key, val) == entries.push((key, val)),
    decreases entries.len(),
{
    if entries.len() == 0 {
        assert(insert_entry(entries, key, val) =~= entries.push((key, val)));
    } else {
        lemma_insert_entry_absent(entries.drop_first(), key, val);
        assert(insert_entry(entries, key, val) =~= entries.push((key, val)));
    }
}

/// Reads a whole persisted tracker file.  Mirrors `parse_tracker`.
pub(crate) fn parse_progress(s: &[u8]) -> (r: Option<Vec<(usize, (usize, usize))>>)
    ensures
        match r {
            Some(v) => parse_tracker(s@) == Some(v@),
            None => parse_tracker(s@) is None,
        },
{
    let i = skip_ws_exec(s, 0);
    if i >= s.len() || s[i] != 123 {
        return None;
    }
    let j = skip_ws_exec(s, i + 1);
    if j < s.len() && s[j] == 125 {
        if skip_ws_exec(s, j + 1) == s.len() {
            let empty: Vec<(usize, (usize, usize))> = Vec::new();
            proof {
                assert(empty@ =~= Seq::<(usize, (usize, usize))>::empty());
            }
            return Some(empty);
        } else {
            return None;
        }
    }
    let mut acc: Vec<(usize, (usize, usize))> = Vec::new();
    let mut pos = j;
    let ghost fuel = s@.len() as nat;
    let mut steps: usize = 0;
    loop
        invariant
            pos <= s@.len(),
            steps < s@.len(),
            fuel == s@.len() as nat,
            parse_tracker(s@) == entries_from(s@, pos as int, acc@, (fuel - steps) as nat),
        decreases s@.len() - steps,
    {
        let (kv, next) = match entry_at_exec(s, pos) {
            Some(v) => v,
            None => {
                proof {
                    assert(entries_from(s@, pos as int, acc@, (fuel - steps) as nat) is None);
                }
                return None;
            },
        };
        insert_entry_exec(&mut acc, kv.0, kv.1);
        let t = skip_ws_exec(s, next);
        if t < s.len() && s[t] == 44 {
            if steps >= s.len() - 1 {
                // the remaining input is shorter than another item
                proof {
                    lemma_entries_from_needs_bytes(s@, skip_ws(s@, t + 1), acc@, (fuel - steps
                        - 1) as nat);
                }
                return None;
            }
            pos = skip_ws_exec(s, t + 1);
            steps += 1;
        } else if t < s.len() && s[t] == 125 {
            if skip_ws_exec(s, t + 1) == s.len() {
                return Some(acc);
            } else {
                return None;
            }
        } else {
            return None;
        }
    }
}

/// With no fuel the fold gives up; real input always has fuel to spare
/// because an item is never shorter than a byte.
proof fn lemma_entries_from_needs_bytes(
    s: Seq<u8>,
    i: int,
    acc: Seq<(usize, (usize, usize))>,
    fuel: nat,
)
    requires
        fuel == 0,
    ensures
        entries_from(s, i, acc, fuel) is None,
{
}

/// No two pairs hold the same identifier.
pub open spec fn unique_keys(entries: Seq<(usize, (usize, usize))>) -> bool {
    forall|i: int, j: int| 0 <= i < j < entries.len() ==> entries[i].0 != entries[j].0
}

pub(crate) proof fn lemma_insert_entry_unique(
    entries: Seq<(usize, (usize, usize))>,
    key: usize,
    val: (usize, usize),
)
    requires
        unique_keys(entries),
    ensures
        unique_keys(insert_entry(entries, key, val)),
        forall|j: int|
            0 <= j < insert_entry(entries, key, val).len() ==> (insert_entry(entries, key, val)[j].0
                == key || exists|i: int|
                0 <= i < entries.len() && entries[i].0 == insert_entry(entries, key, val)[j].0),
    decreases entries.len(),
{
    let out = insert_entry(entries, key, val);
    if entries.len() == 0 {
    } else if entries[0].0 == key {
        assert(forall|j: int| 1 <= j < out.len() ==> out[j] == entries[j]);
    } else {
        assert(unique_keys(entries.drop_first()));
        lemma_insert_entry_unique(entries.drop_first(), key, val);
        let rest = insert_entry(entries.drop_first(), key, val);
        assert(out[0] == entries[0]);
        assert(forall|j: int| 1 <= j < out.len() ==> out[j] == rest[j - 1]);
        assert forall|j: int| 1 <= j < out.len() implies (#[trigger] out[j]).0 != out[0].0 by {
            if rest[j - 1].0 != key {
                let i = choose|i: int|
                    0 <= i < entries.drop_first().len() && entries.drop_first()[i].0 == rest[j
                        - 1].0;
                assert(entries[i + 1].0 == rest[j - 1].0);
            }
        }
    }
}

/// A well-formed read yields unique identifiers.
pub(crate) proof fn lemma_entries_from_unique(
    s: Seq<u8>,
    i: int,
    acc: Seq<(usize, (usize, usize))>,
    fuel: nat,
)
    requires
        unique_keys(acc),
    ensures
        entries_from(s, i, acc, fuel) matches Some(es) ==> unique_keys(es),
    decreases fuel,
{
    if fuel > 0 {
        if let Some((kv, j)) = entry_at(s, i) {
            lemma_insert_entry_unique(acc, kv.0, kv.1);
            let t = skip_ws(s, j);
            if t < s.len() && s[t] == 44 {
                lemma_entries_from_unique(
                    s,
                    skip_ws(s, t + 1),
                    insert_entry(acc, kv.0, kv.1),
                    (fuel - 1) as nat,
                );
            }
        }
    }
}

/// A well-formed tracker file yields unique identifiers.
pub(crate) proof fn lemma_parse_tracker_unique(s: Seq<u8>)
    ensures
        parse_tracker(s) matches Some(es) ==> unique_keys(es),
{
    let i = skip_ws(s, 0);
    if i < s.len() && s[i] == 123 {
        let j = skip_ws(s, i + 1);
        if !(j < s.len() && s[j] == 125) {
            lemma_entries_from_unique(s, j, Seq::empty(), s.len() as nat);
        }
    }
}

// ---------------------------------------------------------------------------
// Rendering
// ---------------------------------------------------------------------------

/// Decimal digits of a non-negative number.
pub open spec fn render_num(n: int) -> Seq<u8>
    recommends
        n >= 0,
    decreases n,
{
    if n < 10 {
        seq![(48 + n) as u8]
    } else {
        render_num(n / 10).push((48 + n % 10) as u8)
    }
}

/// One `"key":[group,position]` item.
pub open spec fn render_entry(e: (usize, (usize, usize))) -> Seq<u8> {
    seq![34u8] + render_num(e.0 as int) + seq![34u8, 58u8, 91u8] + render_num(e.1.0 as int)
        + seq![44u8] + render_num(e.1.1 as int) + seq![93u8]
}

pub open spec fn render_entries(entries: Seq<(usize, (usize, usize))>) -> Seq<u8>
    decreases entries.len(),
{
    if entries.len() == 0 {
        Seq::empty()
    } else if entries.len() == 1 {
        render_entry(entries[0])
    } else {
        render_entries(entries.drop_last()) + seq![44u8] + render_entry(entries.last())
    }
}

/// The persisted form of a whole tracker.
pub open spec fn render_tracker(entries: Seq<(usize, (usize, usize))>) -> Seq<u8> {
    seq![123u8] + render_entries(entries) + seq![125u8]
}

/// Appends the decimal digits of `n`.
fn push_num(out: &mut Vec<u8>, n: usize)
    ensures
        final(out)@ == old(out)@ + render_num(n as int),
{
    if n == 0 {
        out.push(48);
        proof {
            assert(out@ =~= old(out)@ + render_num(0));
        }
        return ;
    }
    let mut tmp: Vec<u8> = Vec::new();
    let mut m = n;
    while m > 0
        invariant
            out@ == old(out)@,
            if m > 0 {
                render_num(n as int) == render_num(m as int) + tmp@.reverse()
            } else {
                render_num(n as int) == tmp@.reverse()
            },
        decreases m,
    {
        let ghost tmp0 = tmp@;
        let ghost m0 = m as int;
        let d: u8 = (m % 10) as u8 + 48;
        tmp.push(d);
        m = m / 10;
        proof {
            assert(tmp@.reverse() =~= seq![d] + tmp0.reverse());
            if m > 0 {
                assert(render_num(m0) == render_num(m0 / 10).push(d));
                assert(render_num(m0 / 10).push(d) + tmp0.reverse() =~= render_num(m0 / 10) + (
                seq![d] + tmp0.reverse()));
            } else {
                assert(render_num(m0) =~= seq![d]);
                assert(render_num(m0) + tmp0.reverse() =~= seq![d] + tmp0.reverse());
            }
        }
    }
    let mut j = tmp.len();
    while j > 0
        invariant
            j <= tmp@.len(),
            render_num(n as int) == tmp@.reverse(),
            out@ == old(out)@ + tmp@.subrange(j as int, tmp@.len() as int).reverse(),
        decreases j,
    {
        j -= 1;
        let b = tmp[j];
        out.push(b);
        proof {
            assert(tmp@.subrange(j as int, tmp@.len() as int).reverse() =~= tmp@.subrange(
                j + 1,
                tmp@.len() as int,
            ).reverse().push(b));
        }
    }
    proof {
        assert(tmp@.subrange(0, tmp@.len() as int) =~= tmp@);
    }
}

// ---------------------------------------------------------------------------
// Round trip: reading a rendered tracker gives its pairs back
// ---------------------------------------------------------------------------

proof fn lemma_render_num_digits(n: int)
    requires
        n >= 0,
    ensures
        render_num(n).len() >= 1,
        forall|k: int| 0 <= k < render_num(n).len() ==> is_digit_byte(#[trigger] render_num(n)[k]),
        byte_digits_value(render_num(n)) == n,
        render_num(n).len() > 1 ==> render_num(n)[0] != 48,
    decreases n,
{
    reveal_with_fuel(byte_digits_value, 2);
    if n < 10 {
        assert(render_num(n).drop_last() =~= Seq::<u8>::empty());
    } else {
        lemma_render_num_digits(n / 10);
        vstd::arithmetic::div_mod::lemma_fundamental_div_mod(n, 10);
        assert(render_num(n).drop_last() =~= render_num(n / 10));
        assert(render_num(n).last() == (48 + n % 10) as u8);
        assert(render_num(n)[0] == render_num(n / 10)[0]);
        assert(n / 10 >= 1);
        if render_num(n / 10).len() == 1 {
            assert(n / 10 < 10);
            assert(render_num(n / 10)[0] == (48 + n / 10) as u8);
        }
    }
}

proof fn lemma_digits_end_run(s: Seq<u8>, i: int, j: int)
    requires
        0 <= i <= j <= s.len(),
        forall|k: int| i <= k < j ==> is_digit_byte(#[trigger] s[k]),
        j < s.len() ==> !is_digit_byte(s[j]),
    ensures
        digits_end(s, i) == j,
    decreases j - i,
{
    if i < j {
        lemma_digits_end_run(s, i + 1, j);
    }
}

proof fn lemma_num_at_render(s: Seq<u8>, i: int, n: usize)
    requires
        0 <= i,
        i + render_num(n as int).len() <= s.len(),
        s.subrange(i, i + render_num(n as int).len() as int) == render_num(n as int),
        i + render_num(n as int).len() < s.len() ==> !is_digit_byte(
            s[i + render_num(n as int).len()],
        ),
    ensures
        num_at(s, i) == Some((n, i + render_num(n as int).len() as int)),
{
    let r = render_num(n as int);
    lemma_render_num_digits(n as int);
    assert forall|k: int| i <= k < i + r.len() implies is_digit_byte(#[trigger] s[k]) by {
        assert(s[k] == s.subrange(i, i + r.len() as int)[k - i]);
    }
    lemma_digits_end_run(s, i, i + r.len() as int);
    assert(s[i] == s.subrange(i, i + r.len() as int)[0]);
    assert(s[i] == r[0]);
    if r.len() > 1 {
        assert(r[0] != 48);
    }
}

proof fn lemma_render_entries_front(es: Seq<(usize, (usize, usize))>)
    requires
        es.len() >= 1,
    ensures
        render_entries(es) == render_entry(es[0]) + (if es.len() == 1 {
            Seq::<u8>::empty()
        } else {
            seq![44u8] + render_entries(es.drop_first())
        }),
    decreases es.len(),
{
    if es.len() == 1 {
        assert(render_entries(es) =~= render_entry(es[0]) + Seq::<u8>::empty());
    } else if es.len() == 2 {
        reveal_with_fuel(render_entries, 2);
        assert(es.drop_last()[0] == es[0]);
        assert(es.drop_last().len() == 1);
        assert(es.drop_first().len() == 1);
        assert(es.drop_first()[0] == es[1]);
        assert(render_entries(es) =~= render_entry(es[0]) + (seq![44u8] + render_entries(
            es.drop_first(),
        )));
    } else {
        lemma_render_entries_front(es.drop_last());
        assert(es.drop_last()[0] == es[0]);
        assert(es.drop_last().drop_first() =~= es.drop_first().drop_last());
        assert(es.drop_first().last() == es.last());
        assert(render_entries(es.drop_first()) == render_entries(es.drop_first().drop_last())
            + seq![44u8] + render_entry(es.drop_first().last()));
        assert(render_entries(es) =~= render_entry(es[0]) + (seq![44u8] + render_entries(
            es.drop_first(),
        )));
    }
}

proof fn lemma_render_entries_len(es: Seq<(usize, (usize, usize))>)
    ensures
        render_entries(es).len() >= es.len(),
    decreases es.len(),
{
    if es.len() == 1 {
        lemma_render_num_digits(es[0].0 as int);
        lemma_render_num_digits(es[0].1.0 as int);
        lemma_render_num_digits(es[0].1.1 as int);
    } else if es.len() > 1 {
        lemma_render_entries_len(es.drop_last());
        lemma_render_num_digits(es.last().0 as int);
        lemma_render_num_digits(es.last().1.0 as int);
        lemma_render_num_digits(es.last().1.1 as int);
    }
}

proof fn lemma_entry_at_render(s: Seq<u8>, i: int, e: (usize, (usize, usize)))
    requires
        0 <= i,
        i + render_entry(e).len() <= s.len(),
        s.subrange(i, i + render_entry(e).len() as int) == render_entry(e),
    ensures
        entry_at(s, i) == Some((e, i + render_entry(e).len() as int)),
{
    let re = render_entry(e);
    let dk = render_num(e.0 as int);
    let dg = render_num(e.1.0 as int);
    let dp = render_num(e.1.1 as int);
    lemma_render_num_digits(e.0 as int);
    lemma_render_num_digits(e.1.0 as int);
    lemma_render_num_digits(e.1.1 as int);
    assert forall|k: int| 0 <= k < re.len() implies s[i + k] == #[trigger] re[k] by {
        assert(re[k] == s.subrange(i, i + re.len() as int)[k]);
    }
    // offsets of the fixed characters inside the rendered item
    let j = i + 1 + dk.len();
    let b = j + 2;
    let g1 = b + 1 + dg.len();
    let p0 = g1 + 1;
    let p1 = p0 + dp.len();
    assert(re.len() == 1 + dk.len() + 3 + dg.len() + 1 + dp.len() + 1);
    assert(re[0] == 34);
    assert(s[i] == 34);
    assert forall|k: int| 0 <= k < dk.len() implies #[trigger] dk[k] == re[1 + k] by {}
    assert(s.subrange(i + 1, i + 1 + dk.len() as int) =~= dk) by {
        assert forall|k: int|
            0 <= k < dk.len() implies s.subrange(i + 1, i + 1 + dk.len() as int)[k] == dk[k] by {
            assert(dk[k] == re[1 + k]);
            assert(s[i + (1 + k)] == re[1 + k]);
        }
    }
    assert(re[(j - i) as int] == 34);
    assert(s[i + (j - i)] == re[(j - i) as int]);
    assert(s[j] == 34);
    lemma_num_at_render(s, i + 1, e.0);
    assert(num_at(s, i + 1) == Some((e.0, j)));
    assert(re[(j + 1 - i) as int] == 58);
    assert(s[i + (j + 1 - i)] == re[(j + 1 - i) as int]);
    assert(skip_ws(s, j + 1) == j + 1);
    assert(re[(j + 2 - i) as int] == 91);
    assert(s[i + (j + 2 - i)] == re[(j + 2 - i) as int]);
    assert(s[b] == 91);
    assert forall|k: int| 0 <= k < dg.len() implies #[trigger] dg[k] == re[4 + dk.len() + k] by {}
    assert(s.subrange(b + 1, b + 1 + dg.len() as int) =~= dg) by {
        assert forall|k: int|
            0 <= k < dg.len() implies s.subrange(b + 1, b + 1 + dg.len() as int)[k] == dg[k] by {
            assert(dg[k] == re[4 + dk.len() + k]);
            assert(s[i + (4 + dk.len() + k)] == re[4 + dk.len() as int + k]);
        }
    }
    assert(s[b + 1] == dg[0]);
    assert(!is_ws_byte(s[b + 1]));
    assert(skip_ws(s, b + 1) == b + 1);
    assert(re[(g1 - i) as int] == 44);
    assert(s[i + (g1 - i)] == re[(g1 - i) as int]);
    assert(s[g1] == 44);
    lemma_num_at_render(s, b + 1, e.1.0);
    assert(num_at(s, b + 1) == Some((e.1.0, g1)));
    assert(skip_ws(s, g1) == g1);
    assert forall|k: int|
        0 <= k < dp.len() implies #[trigger] dp[k] == re[5 + dk.len() + dg.len() + k] by {}
    assert(s.subrange(p0, p0 + dp.len() as int) =~= dp) by {
        assert forall|k: int|
            0 <= k < dp.len() implies s.subrange(p0, p0 + dp.len() as int)[k] == dp[k] by {
            assert(dp[k] == re[5 + dk.len() + dg.len() + k]);
            assert(s[i + (5 + dk.len() + dg.len() + k)] == re[5 + dk.len() as int + dg.len() + k]);
        }
    }
    assert(s[p0] == dp[0]);
    assert(!is_ws_byte(s[p0]));
    assert(skip_ws(s, p0) == p0);
    assert(re[(p1 - i) as int] == 93);
    assert(s[i + (p1 - i)] == re[(p1 - i) as int]);
    assert(s[p1] == 93);
    lemma_num_at_render(s, p0, e.1.1);
    assert(num_at(s, p0) == Some((e.1.1, p1)));
    assert(skip_ws(s, p1) == p1);
    assert(p1 + 1 == i + re.len());
}

proof fn lemma_entries_from_render(
    s: Seq<u8>,
    i: int,
    acc: Seq<(usize, (usize, usize))>,
    es: Seq<(usize, (usize, usize))>,
    fuel: nat,
)
    requires
        es.len() >= 1,
        fuel >= es.len(),
        unique_keys(acc + es),
        0 <= i,
        i + render_entries(es).len() + 1 == s.len(),
        s.subrange(i, i + render_entries(es).len() as int) == render_entries(es),
        s[s.len() - 1] == 125,
    ensures
        entries_from(s, i, acc, fuel) == Some(acc + es),
    decreases es.len(),
{
    let all = render_entries(es);
    let e0 = es[0];
    let re = render_entry(e0);
    lemma_render_entries_front(es);
    assert forall|k: int| 0 <= k < all.len() implies s[i + k] == #[trigger] all[k] by {
        assert(all[k] == s.subrange(i, i + all.len() as int)[k]);
    }
    assert(s.subrange(i, i + re.len() as int) =~= re) by {
        assert forall|k: int|
            0 <= k < re.len() implies s.subrange(i, i + re.len() as int)[k] == re[k] by {
            assert(re[k] == all[k]);
            assert(s[i + k] == all[k]);
        }
    }
    lemma_entry_at_render(s, i, e0);
    let j = i + re.len() as int;
    assert(e0.0 == (acc + es)[acc.len() as int].0);
    assert forall|k: int| 0 <= k < acc.len() implies acc[k].0 != e0.0 by {
        assert(acc[k] == (acc + es)[k]);
    }
    lemma_insert_entry_absent(acc, e0.0, e0.1);
    assert(insert_entry(acc, e0.0, e0.1) == acc.push(e0));
    if es.len() == 1 {
        assert(j == s.len() - 1);
        assert(s[j] == 125);
        assert(skip_ws(s, j) == j);
        assert(skip_ws(s, j + 1) == s.len());
        assert(acc.push(e0) =~= acc + es);
    } else {
        let rest = render_entries(es.drop_first());
        assert(all[(j - i) as int] == 44);
        assert(s[i + (j - i)] == all[(j - i) as int]);
        assert(s[j] == 44);
        assert(skip_ws(s, j) == j);
        lemma_render_entries_front(es.drop_first());
        assert(es.drop_first()[0] == es[1]);
        lemma_render_num_digits(es[1].0 as int);
        assert(rest[0] == 34);
        assert forall|k: int| 0 <= k < rest.len() implies #[trigger] rest[k] == all[re.len() + 1
            + k] by {}
        assert(s[i + (re.len() + 1)] == all[re.len() as int + 1]);
        assert(s[j + 1] == 34);
        assert(skip_ws(s, j + 1) == j + 1);
        assert(acc.push(e0) + es.drop_first() =~= acc + es);
        assert(s.subrange(j + 1, j + 1 + rest.len() as int) =~= rest) by {
            assert forall|k: int|
                0 <= k < rest.len() implies s.subrange(j + 1, j + 1 + rest.len() as int)[k]
                == rest[k] by {
                assert(rest[k] == all[re.len() + 1 + k]);
                assert(s[i + (re.len() + 1 + k)] == all[re.len() as int + 1 + k]);
            }
        }
        lemma_entries_from_render(s, j + 1, acc.push(e0), es.drop_first(), (fuel - 1) as nat);
    }
}

/// Round trip: reading a rendered tracker yields exactly the pairs that
/// were rendered, whenever their identifiers are unique, as the tracker
/// keeps them.
pub proof fn lemma_tracker_round_trip(entries: Seq<(usize, (usize, usize))>)
    requires
        unique_keys(entries),
    ensures
        parse_tracker(render_tracker(entries)) == Some(entries),
{
    let s = render_tracker(entries);
    let body = render_entries(entries);
    assert(s.len() == body.len() + 2);
    assert(s[0] == 123);
    assert(s[s.len() - 1] == 125);
    assert(skip_ws(s, 0) == 0);
    if entries.len() == 0 {
        assert(s.len() == 2);
        assert(s[1] == 125);
        assert(skip_ws(s, 1) == 1);
        assert(skip_ws(s, 2) == 2);
        assert(parse_tracker(s) == Some(Seq::<(usize, (usize, usize))>::empty()));
        assert(Seq::<(usize, (usize, usize))>::empty() =~= entries);
    } else {
        lemma_render_entries_front(entries);
        lemma_render_num_digits(entries[0].0 as int);
        assert(body[0] == 34);
        assert(s[1] == 34);
        assert(skip_ws(s, 1) == 1);
        lemma_render_entries_len(entries);
        assert(s.subrange(1, 1 + body.len() as int) =~= body);
        lemma_entries_from_render(
            s,
            1,
            Seq::empty(),
            entries,
            s.len() as nat,
        );
        assert(Seq::<(usize, (usize, usize))>::empty() + entries =~= entries);
    }
}

/// Renders a whole tracker in its persisted form.
pub(crate) fn render_progress(entries: &Vec<(usize, (usize, usize))>) -> (r: Vec<u8>)
    ensures
        r@ == render_tracker(entries@),
{
    let mut out: Vec<u8> = Vec::new();
    out.push(123);
    let mut i: usize = 0;
    while i < entries.len()
        invariant
            i <= entries@.len(),
            out@ == seq![123u8] + render_entries(entries@.take(i as int)),
        decreases entries@.len() - i,
    {
        if i > 0 {
            out.push(44);
        }
        let e = entries[i];
        out.push(34);
        push_num(&mut out, e.0);
        out.push(34);
        out.push(58);
        out.push(91);
        push_num(&mut out, e.1.0);
        out.push(44);
        push_num(&mut out, e.1.1);
        out.push(93);
        proof {
            assert(entries@.take(i + 1).drop_last() =~= entries@.take(i as int));
            assert(entries@.take(i + 1).last() == entries@[i as int]);
            if i == 0 {
                assert(out@ =~= seq![123u8] + render_entries(entries@.take(1)));
            } else {
                assert(render_entries(entries@.take(i + 1)) == render_entries(
                    entries@.take(i as int),
                ) + seq![44u8] + render_entry(entries@[i as int]));
                assert(out@ =~= seq![123u8] + render_entries(entries@.take(i + 1)));
            }
        }
        i += 1;
    }
    out.push(125);
    proof {
        assert(entries@.take(entries@.len() as int) =~= entries@);
        assert(out@ =~= render_tracker(entries@));
    }
    out
}

} // verus!
