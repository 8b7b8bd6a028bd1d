use vstd::prelude::*;
use crate::text::{chars_of, is_ws, is_ws_char, slice_of, string_of};
use crate::task::{is_digit, is_digit_char};

verus! {

/// Why a request could not be carried out.
#[derive(Debug, PartialEq)]
pub enum TodoError {
    /// The reference has no `:` between section and numbers.
    InvalidReference,
    /// A task number is not a number.
    InvalidNumber,
    /// No section has this name.
    SectionNotFound(String),
    /// The section has no task with this number.
    TaskNotFound(String, usize),
    /// The task with this number is not done, so it cannot be archived.
    NotCompleted(String, usize),
    /// The configured time zone has no entry in the zone table.
    InvalidTimezone(String),
    /// A path starts with `~/` but the system gives no home directory.
    HomeNotFound,
}

/// The pieces of `s` between separators, the last one still open.
pub open spec fn split_on(s: Seq<char>, sep: char) -> (Seq<Seq<char>>, Seq<char>)
    decreases s.len(),
{
    if s.len() == 0 {
        (Seq::empty(), Seq::empty())
    } else {
        let (done, cur) = split_on(s.drop_last(), sep);
        if s.last() == sep {
            (done.push(cur), Seq::empty())
        } else {
            (done, cur.push(s.last()))
        }
    }
}

/// The pieces of `s` between commas (one piece where there is no comma).
pub open spec fn comma_pieces(s: Seq<char>) -> Seq<Seq<char>> {
    split_on(s, ',').0.push(split_on(s, ',').1)
}

pub open spec fn trim_start(s: Seq<char>) -> Seq<char>
    decreases s.len(),
{
    if s.len() > 0 && is_ws(s[0]) {
        trim_start(s.skip(1))
    } else {
        s
    }
}

pub open spec fn trim_end(s: Seq<char>) -> Seq<char>
    decreases s.len(),
{
    if s.len() > 0 && is_ws(s.last()) {
        trim_end(s.drop_last())
    } else {
        s
    }
}

/// `s` without leading and trailing whitespace.
pub open spec fn trim(s: Seq<char>) -> Seq<char> {
    trim_end(trim_start(s))
}

pub open spec fn digit_value(c: char) -> nat {
    (c as u32 - '0' as u32) as nat
}

pub open spec fn all_digits(s: Seq<char>) -> bool {
    forall|i: int| 0 <= i < s.len() ==> is_digit(#[trigger] s[i])
}

/// The number that a sequence of decimal digits spells.
pub open spec fn digits_value(s: Seq<char>) -> nat
    decreases s.len(),
{
    if s.len() == 0 {
        0
    } else {
        digits_value(s.drop_last()) * 10 + digit_value(s.last())
    }
}

/// The unsigned number that `s` spells: an optional `+` then at least one
/// decimal digit, with a value that fits in `usize`.
pub open spec fn number_value(s: Seq<char>) -> Option<nat> {
    let t = if s.len() > 0 && s[0] == '+' { s.skip(1) } else { s };
    if t.len() > 0 && all_digits(t) && digits_value(t) <= usize::MAX {
        Some(digits_value(t))
    } else {
        None
    }
}

/// Every comma-separated piece of `s`, trimmed, is a number.
pub open spec fn all_numbers(s: Seq<char>) -> bool {
    forall|i: int|
        0 <= i < comma_pieces(s).len() ==> (#[trigger] number_value(trim(comma_pieces(s)[i]))) is Some
}

/// `n` is the number of one of the pieces of `s`.
pub open spec fn lists_number(s: Seq<char>, n: nat) -> bool {
    exists|i: int|
        0 <= i < comma_pieces(s).len() && #[trigger] number_value(trim(comma_pieces(s)[i])) == Some(
            n,
        )
}

pub open spec fn increasing(v: Seq<usize>) -> bool {
    forall|i: int, j: int| 0 <= i < j < v.len() ==> v[i] < v[j]
}

/// `i` is the place of the first `:` in `s`.
pub open spec fn first_colon(s: Seq<char>, i: int) -> bool {
    &&& 0 <= i < s.len()
    &&& s[i] == ':'
    &&& forall|j: int| 0 <= j < i ==> s[j] != ':'
}

pub open spec fn has_colon(s: Seq<char>) -> bool {
    exists|i: int| 0 <= i < s.len() && s[i] == ':'
}

/// The place of the first `:`, or `None`.
pub fn find_colon(s: &Vec<char>) -> (r: Option<usize>)
    ensures
        match r {
            Some(i) => first_colon(s@, i as int),
            None => !has_colon(s@),
        },
{
    let mut i: usize = 0;
    while i < s.len()
        invariant
            i <= s.len(),
            forall|j: int| 0 <= j < i ==> s@[j] != ':',
        decreases s.len() - i,
    {
        if s[i] == ':' {
            return Some(i);
        }
        i = i + 1;
    }
    None
}

proof fn lemma_trim_start_front(s: Seq<char>)
    ensures
        trim_start(s).len() == 0 || !is_ws(trim_start(s)[0]),
    decreases s.len(),
{
    if s.len() > 0 && is_ws(s[0]) {
        lemma_trim_start_front(s.skip(1));
    }
}

proof fn lemma_trim_end_back(x: Seq<char>)
    ensures
        trim_end(x).len() == 0 || !is_ws(trim_end(x).last()),
        x.len() > 0 && !is_ws(x[0]) ==> trim_end(x).len() > 0 && trim_end(x)[0] == x[0],
    decreases x.len(),
{
    if x.len() > 0 && is_ws(x.last()) {
        lemma_trim_end_back(x.drop_last());
        if x.len() > 1 {
            assert(x.drop_last()[0] == x[0]);
        }
    }
}

/// A trimmed sequence that is not empty starts and ends with a non-whitespace character.
pub proof fn lemma_trim_ends(s: Seq<char>)
    ensures
        trim(s).len() > 0 ==> !is_ws(trim(s)[0]) && !is_ws(trim(s).last()),
{
    lemma_trim_start_front(s);
    lemma_trim_end_back(trim_start(s));
}

/// A sequence that starts and ends with a non-whitespace character is its own trim.
pub proof fn lemma_trim_noop(s: Seq<char>)
    requires
        s.len() > 0,
        !is_ws(s[0]),
        !is_ws(s.last()),
    ensures
        trim(s) == s,
{
}

proof fn lemma_trim_start_skip(s: Seq<char>, i: int)
    requires
        0 <= i <= s.len(),
        forall|j: int| 0 <= j < i ==> is_ws(#[trigger] s[j]),
    ensures
        trim_start(s) == trim_start(s.skip(i)),
    decreases i,
{
    if i == 0 {
        assert(s.skip(0) =~= s);
    } else {
        assert(is_ws(s[0]));
        assert(trim_start(s) == trim_start(s.skip(1)));
        assert(s.skip(1).skip(i - 1) =~= s.skip(i));
        assert forall|j: int| 0 <= j < i - 1 implies is_ws(#[trigger] s.skip(1)[j]) by {
            assert(s.skip(1)[j] == s[j + 1]);
        }
        lemma_trim_start_skip(s.skip(1), i - 1);
    }
}

proof fn lemma_trim_end_take(s: Seq<char>, i: int)
    requires
        0 <= i <= s.len(),
        forall|j: int| i <= j < s.len() ==> is_ws(#[trigger] s[j]),
    ensures
        trim_end(s) == trim_end(s.take(i)),
    decreases s.len() - i,
{
    if i == s.len() {
        assert(s.take(i) =~= s);
    } else {
        assert(is_ws(s[s.len() - 1]));
        assert(trim_end(s) == trim_end(s.drop_last()));
        assert(s.drop_last().take(i) =~= s.take(i));
        assert forall|j: int| i <= j < s.drop_last().len() implies is_ws(#[trigger] s.drop_last()[j]) by {
            assert(s.drop_last()[j] == s[j]);
        }
        assert(is_ws(s[s.len() - 1]));
        lemma_trim_end_take(s.drop_last(), i);
    }
}

/// `s` without leading and trailing whitespace.
pub fn trim_chars(s: &Vec<char>) -> (r: Vec<char>)
    ensures
        r@ == trim(s@),
{
    let mut lo: usize = 0;
    while lo < s.len() && is_ws_char(s[lo])
        invariant
            lo <= s.len(),
            forall|j: int| 0 <= j < lo ==> is_ws(#[trigger] s@[j]),
        decreases s.len() - lo,
    {
        lo = lo + 1;
    }
    proof {
        lemma_trim_start_skip(s@, lo as int);
        assert(trim_start(s@.skip(lo as int)) == s@.skip(lo as int));
    }
    let mut hi: usize = s.len();
    while hi > lo && is_ws_char(s[hi - 1])
        invariant
            lo <= hi <= s.len(),
            forall|j: int| hi <= j < s.len() ==> is_ws(#[trigger] s@[j]),
        decreases hi,
    {
        hi = hi - 1;
    }
    let ghost t = s@.skip(lo as int);
    proof {
        assert forall|j: int| hi - lo <= j < t.len() implies is_ws(#[trigger] t[j]) by {
            assert(t[j] == s@[j + lo]);
        }
        lemma_trim_end_take(t, hi - lo);
        if hi > lo {
            assert(t.take(hi - lo).last() == s@[hi - 1]);
        }
        assert(trim_end(t.take(hi - lo)) == t.take(hi - lo));
        assert(t.take(hi - lo) =~= s@.subrange(lo as int, hi as int));
    }
    slice_of(s, lo, hi)
}

/// The number that `s` spells, or `None`.
pub fn parse_number(s: &Vec<char>) -> (r: Option<usize>)
    ensures
        match r {
            Some(n) => number_value(s@) == Some(n as nat),
            None => number_value(s@) is None,
        },
{
    let start: usize = if s.len() > 0 && s[0] == '+' { 1 } else { 0 };
    let ghost t = s@.skip(start as int);
    proof {
        if start == 0 {
            assert(t =~= s@);
        }
        assert(t == (if s@.len() > 0 && s@[0] == '+' { s@.skip(1) } else { s@ }));
    }
    if start >= s.len() {
        return None;
    }
    let mut v: usize = 0;
    let mut i: usize = start;
    while i < s.len()
        invariant
            start <= i <= s.len(),
            t == s@.skip(start as int),
            t == (if s@.len() > 0 && s@[0] == '+' { s@.skip(1) } else { s@ }),
            all_digits(t.take(i - start)),
            v as nat == digits_value(t.take(i - start)),
        decreases s.len() - i,
    {
        let c = s[i];
        proof {
            assert(t.take(i + 1 - start).drop_last() =~= t.take(i - start));
            assert(t.take(i + 1 - start).last() == c);
        }
        if !is_digit_char(c) {
            proof {
                assert(t[i - start] == c);
                assert(!is_digit(t[i - start]));
                assert(!all_digits(t));
            }
            return None;
        }
        let d = (c as u32 - '0' as u32) as usize;
        if v > (usize::MAX - d) / 10 {
            proof {
                assert(digits_value(t.take(i + 1 - start)) == v * 10 + d);
                assert(v * 10 + d > usize::MAX) by (nonlinear_arith)
                    requires
                        v > (usize::MAX - d) / 10,
                        d <= 9,
                ;
                if all_digits(t) {
                    lemma_digits_grow(t, i + 1 - start);
                }
            }
            return None;
        }
        proof {
            assert(v * 10 + d <= usize::MAX) by (nonlinear_arith)
                requires
                    v <= (usize::MAX - d) / 10,
                    d <= 9,
            ;
        }
        v = v * 10 + d;
        i = i + 1;
        proof {
            assert forall|j: int| 0 <= j < i - start implies is_digit(#[trigger] t.take(i - start)[j]) by {
                if j < i - 1 - start {
                    assert(t.take(i - start)[j] == t.take(i - 1 - start)[j]);
                }
            }
        }
    }
    proof {
        assert(t.take(s.len() - start) =~= t);
    }
    Some(v)
}

proof fn lemma_digits_grow(t: Seq<char>, k: int)
    requires
        0 <= k <= t.len(),
        all_digits(t),
    ensures
        digits_value(t.take(k)) <= digits_value(t),
    decreases t.len() - k,
{
    if k == t.len() {
        assert(t.take(k) =~= t);
    } else {
        lemma_digits_grow(t, k + 1);
        assert(t.take(k + 1).drop_last() =~= t.take(k));
        let x = digits_value(t.take(k));
        let d = digit_value(t.take(k + 1).last());
        assert(digits_value(t.take(k + 1)) == x * 10 + d);
        assert(x * 10 + d >= x) by (nonlinear_arith);
    }
}

/// Adds `x` to an increasing list, keeping it increasing and free of repeats.
fn insert_sorted(v: &mut Vec<usize>, x: usize)
    requires
        increasing(old(v)@),
    ensures
        increasing(final(v)@),
        forall|n: usize| #[trigger] final(v)@.contains(n) <==> (old(v)@.contains(n) || n == x),
{
    let mut i: usize = 0;
    while i < v.len() && v[i] < x
        invariant
            i <= v.len(),
            v@ == old(v)@,
            forall|j: int| 0 <= j < i ==> v@[j] < x,
        decreases v.len() - i,
    {
        i = i + 1;
    }
    if i < v.len() && v[i] == x {
        proof {
            assert forall|n: usize| v@.contains(n) <==> (old(v)@.contains(n) || n == x) by {
                if n == x {
                    assert(v@[i as int] == x);
                }
            }
        }
        return;
    }
    let ghost ov = v@;
    v.insert(i, x);
    proof {
        assert(v@ =~= ov.insert(i as int, x));
        assert(i < ov.len() ==> ov[i as int] > x);
        assert forall|a: int, b: int| 0 <= a < b < v@.len() implies v@[a] < v@[b] by {
            if b < i {
                assert(v@[a] == ov[a] && v@[b] == ov[b]);
            } else if b == i {
                assert(v@[a] == ov[a]);
            } else if a < i {
                assert(v@[b] == ov[b - 1]);
                assert(ov[b - 1] >= ov[i as int]);
            } else if a == i {
                assert(v@[b] == ov[b - 1]);
                if b - 1 > i {
                    assert(ov[b - 1] > ov[i as int]);
                }
            } else {
                assert(v@[a] == ov[a - 1] && v@[b] == ov[b - 1]);
            }
        }
        assert forall|n: usize| #[trigger] v@.contains(n) <==> (ov.contains(n) || n == x) by {
            if ov.contains(n) {
                let j = choose|j: int| 0 <= j < ov.len() && ov[j] == n;
                if j < i {
                    assert(v@[j] == n);
                } else {
                    assert(v@[j + 1] == n);
                }
            }
            if n == x {
                assert(v@[i as int] == x);
            }
            if v@.contains(n) {
                let j = choose|j: int| 0 <= j < v@.len() && v@[j] == n;
                if j < i {
                    assert(ov[j] == n);
                } else if j > i {
                    assert(ov[j - 1] == n);
                }
            }
        }
    }
}

/// The comma-separated pieces of `s`.
fn comma_split(s: &Vec<char>) -> (r: Vec<Vec<char>>)
    ensures
        r@.map_values(|p: Vec<char>| p@) == comma_pieces(s@),
{
    let mut done: Vec<Vec<char>> = Vec::new();
    let mut cur: Vec<char> = Vec::new();
    let mut i: usize = 0;
    proof {
        assert(s@.take(0) =~= Seq::<char>::empty());
        assert(done@.map_values(|p: Vec<char>| p@) =~= Seq::<Seq<char>>::empty());
    }
    while i < s.len()
        invariant
            i <= s.len(),
            done@.map_values(|p: Vec<char>| p@) == split_on(s@.take(i as int), ',').0,
            cur@ == split_on(s@.take(i as int), ',').1,
        decreases s.len() - i,
    {
        proof {
            assert(s@.take(i + 1).drop_last() =~= s@.take(i as int));
            assert(s@.take(i + 1).last() == s@[i as int]);
        }
        if s[i] == ',' {
            let ghost before = done@;
            let ghost cv = cur@;
            done.push(cur);
            cur = Vec::new();
            proof {
                assert(done@.map_values(|p: Vec<char>| p@) =~= before.map_values(|p: Vec<char>| p@).push(cv));
                assert(cur@ =~= Seq::<char>::empty());
            }
        } else {
            cur.push(s[i]);
        }
        i = i + 1;
    }
    proof {
        assert(s@.take(s.len() as int) =~= s@);
    }
    let ghost before = done@;
    let ghost cv = cur@;
    done.push(cur);
    proof {
        assert(done@.map_values(|p: Vec<char>| p@) =~= before.map_values(|p: Vec<char>| p@).push(cv));
    }
    done
}

/// The task numbers of a comma-separated list such as `3,1,5`: each piece
/// trimmed and read as a number, then sorted ascending without repeats.
pub fn parse_numbers(nums: &str) -> (r: Result<Vec<usize>, TodoError>)
    ensures
        match r {
            Ok(v) => all_numbers(nums@) && increasing(v@) && forall|n: usize|
                v@.contains(n) <==> lists_number(nums@, n as nat),
            Err(e) => !all_numbers(nums@) && e == TodoError::InvalidNumber,
        },
{
    let s = chars_of(nums);
    let pieces = comma_split(&s);
    let ghost ps = comma_pieces(nums@);
    let mut v: Vec<usize> = Vec::new();
    let mut i: usize = 0;
    while i < pieces.len()
        invariant
            i <= pieces.len(),
            s@ == nums@,
            pieces@.map_values(|p: Vec<char>| p@) == ps,
            ps == comma_pieces(nums@),
            increasing(v@),
            forall|k: int| 0 <= k < i ==> (#[trigger] number_value(trim(ps[k]))) is Some,
            forall|n: usize|
                v@.contains(n) <==> exists|k: int|
                    0 <= k < i && #[trigger] number_value(trim(ps[k])) == Some(n as nat),
        decreases pieces.len() - i,
    {
        let t = trim_chars(&pieces[i]);
        proof {
            assert(pieces@[i as int]@ == ps[i as int]);
        }
        match parse_number(&t) {
            Some(n) => {
                let ghost ov = v@;
                insert_sorted(&mut v, n);
                proof {
                    assert forall|m: usize| v@.contains(m) <==> exists|k: int|
                        0 <= k < i + 1 && #[trigger] number_value(trim(ps[k])) == Some(m as nat) by {
                        if v@.contains(m) && m != n {
                            assert(ov.contains(m));
                        }
                        if m == n {
                            assert(number_value(trim(ps[i as int])) == Some(m as nat));
                        }
                        if exists|k: int| 0 <= k < i + 1 && #[trigger] number_value(trim(ps[k])) == Some(m as nat) {
                            let k = choose|k: int| 0 <= k < i + 1 && #[trigger] number_value(trim(ps[k])) == Some(m as nat);
                            if k < i {
                                assert(ov.contains(m));
                            } else {
                                assert(m == n);
                            }
                        }
                    }
                }
            },
            None => {
                proof {
                    assert(number_value(trim(ps[i as int])) is None);
                }
                return Err(TodoError::InvalidNumber);
            },
        }
        i = i + 1;
    }
    proof {
        assert forall|n: usize| v@.contains(n) <==> lists_number(nums@, n as nat) by {
            if v@.contains(n) {
                let k = choose|k: int| 0 <= k < i && #[trigger] number_value(trim(ps[k])) == Some(n as nat);
                assert(lists_number(nums@, n as nat));
            }
            if lists_number(nums@, n as nat) {
                let k = choose|k: int| 0 <= k < ps.len() && #[trigger] number_value(trim(ps[k])) == Some(n as nat);
                assert(number_value(trim(ps[k])) == Some(n as nat));
            }
        }
    }
    Ok(v)
}

/// Reads `Section:number`: the text before the first `:` and the number after it.
pub fn parse_task_ref(task_ref: &str) -> (r: Result<(String, usize), TodoError>)
    ensures
        match r {
            Ok((name, n)) => exists|i: int|
                first_colon(task_ref@, i) && name@ == task_ref@.take(i) && number_value(
                    task_ref@.skip(i + 1),
                ) == Some(n as nat),
            Err(e) => (!has_colon(task_ref@) && e == TodoError::InvalidReference) || (exists|i: int|
                first_colon(task_ref@, i) && number_value(task_ref@.skip(i + 1)) is None
                    && e == TodoError::InvalidNumber),
        },
        r is Err ==> (!has_colon(task_ref@) <==> r == Err::<(String, usize), TodoError>(TodoError::InvalidReference)),
{
    let s = chars_of(task_ref);
    match find_colon(&s) {
        None => Err(TodoError::InvalidReference),
        Some(i) => {
            let name = slice_of(&s, 0, i);
            let rest = slice_of(&s, i + 1, s.len());
            proof {
                assert(name@ =~= task_ref@.take(i as int));
                assert(rest@ =~= task_ref@.skip(i + 1));
            }
            match parse_number(&rest) {
                Some(n) => Ok((string_of(&name), n)),
                None => Err(TodoError::InvalidNumber),
            }
        },
    }
}

/// Reads `Section:numbers`: the text before the first `:` and the numbers
/// after it, as [`parse_numbers`] reads them.
pub fn parse_task_ref_multi(task_ref: &str) -> (r: Result<(String, Vec<usize>), TodoError>)
    ensures
        match r {
            Ok((name, v)) => exists|i: int|
                first_colon(task_ref@, i) && name@ == task_ref@.take(i) && all_numbers(
                    task_ref@.skip(i + 1),
                ) && increasing(v@) && forall|n: usize|
                    v@.contains(n) <==> lists_number(task_ref@.skip(i + 1), n as nat),
            Err(e) => (!has_colon(task_ref@) && e == TodoError::InvalidReference) || (exists|i: int|
                first_colon(task_ref@, i) && !all_numbers(task_ref@.skip(i + 1))
                    && e == TodoError::InvalidNumber),
        },
{
    let s = chars_of(task_ref);
    match find_colon(&s) {
        None => Err(TodoError::InvalidReference),
        Some(i) => {
            let name = slice_of(&s, 0, i);
            let rest = slice_of(&s, i + 1, s.len());
            proof {
                assert(name@ =~= task_ref@.take(i as int));
                assert(rest@ =~= task_ref@.skip(i + 1));
            }
            let rest_str = string_of(&rest);
            match parse_numbers(rest_str.as_str()) {
                Ok(v) => Ok((string_of(&name), v)),
                Err(e) => Err(e),
            }
        },
    }
}



/// The section part of a reference: the text before its first `:`, or all of it.
pub fn ref_section(task_ref: &str) -> (r: String)
    ensures
        forall|i: int| first_colon(task_ref@, i) ==> r@ == task_ref@.take(i),
        !has_colon(task_ref@) ==> r@ == task_ref@,
{
    let s = chars_of(task_ref);
    match find_colon(&s) {
        Some(c) => {
            let name = slice_of(&s, 0, c);
            proof {
                assert forall|i: int| first_colon(task_ref@, i) implies name@ == task_ref@.take(i) by {
                    if i < c {
                        assert(task_ref@[i] != ':');
                    }
                    if c < i {
                        assert(task_ref@[c as int] != ':');
                    }
                    assert(name@ =~= task_ref@.take(c as int));
                }
            }
            string_of(&name)
        },
        None => String::from_str(task_ref),
    }
}

} // verus!
