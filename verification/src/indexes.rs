//! A fixed-domain membership set over neighbour-count values `0..=26`, used
//! for the birth and survival conditions of a rule.
//!
//! The set also has a textual mini-language: comma-separated tokens, each a
//! bare number or an inclusive range `a-b`, with a canonical serialization
//! back to that language.

use core::ops::RangeInclusive;
use vstd::prelude::*;
use vstd::string::StringExecFns;

verus! {

/// Relies on `core::ops::RangeInclusive::start`: it returns the stored lower
/// bound of the range, the `start` field of vstd's view of the type.
pub assume_specification<Idx>[ RangeInclusive::<Idx>::start ](
    r: &RangeInclusive<Idx>,
) -> (ret: &Idx)
    ensures
        *ret == r@.start,
;

/// Relies on `core::ops::RangeInclusive::end`: it returns the stored upper
/// bound of the range, the `end` field of vstd's view of the type.
pub assume_specification<Idx>[ RangeInclusive::<Idx>::end ](
    r: &RangeInclusive<Idx>,
) -> (ret: &Idx)
    ensures
        *ret == r@.end,
;

/// ASCII whitespace, trimmed around tokens and range operands.
pub open spec fn is_space(c: char) -> bool {
    c == ' ' || c == '\t' || c == '\n' || c == '\r' || c == '\u{b}' || c == '\u{c}'
}

pub open spec fn is_digit(c: char) -> bool {
    48 <= c as int <= 57
}

pub open spec fn digit_val(c: char) -> int {
    c as int - 48
}

pub open spec fn trim_front(t: Seq<char>) -> Seq<char>
    decreases t.len(),
{
    if t.len() > 0 && is_space(t[0]) {
        trim_front(t.drop_first())
    } else {
        t
    }
}

pub open spec fn trim_back(t: Seq<char>) -> Seq<char>
    decreases t.len(),
{
    if t.len() > 0 && is_space(t.last()) {
        trim_back(t.drop_last())
    } else {
        t
    }
}

/// The token with surrounding whitespace removed.
pub open spec fn spec_trim(t: Seq<char>) -> Seq<char> {
    trim_back(trim_front(t))
}

proof fn lemma_trim_front_props(t: Seq<char>)
    ensures
        trim_front(t).len() > 0 ==> !is_space(trim_front(t)[0]),
    decreases t.len(),
{
    if t.len() > 0 && is_space(t[0]) {
        lemma_trim_front_props(t.drop_first());
    }
}

proof fn lemma_trim_back_props(t: Seq<char>)
    ensures
        trim_back(t).len() <= t.len(),
        trim_back(t).len() > 0 ==> !is_space(trim_back(t).last()),
        forall|i: int| 0 <= i < trim_back(t).len() ==> #[trigger] trim_back(t)[i] == t[i],
    decreases t.len(),
{
    if t.len() > 0 && is_space(t.last()) {
        lemma_trim_back_props(t.drop_last());
    }
}

/// A trimmed token trims to itself.
pub proof fn lemma_trim_idem(t: Seq<char>)
    ensures
        spec_trim(spec_trim(t)) == spec_trim(t),
{
    let r = spec_trim(t);
    lemma_trim_front_props(t);
    lemma_trim_back_props(trim_front(t));
    if r.len() > 0 {
        assert(r[0] == trim_front(t)[0]);
        assert(!is_space(r[0]));
        assert(!is_space(r.last()));
    }
    assert(trim_front(r) == r);
    assert(trim_back(r) == r);
}

pub open spec fn all_digits(t: Seq<char>) -> bool {
    forall|i: int| 0 <= i < t.len() ==> is_digit(#[trigger] t[i])
}

/// The value of a digit string, most significant digit first.
pub open spec fn digits_val(t: Seq<char>) -> int
    decreases t.len(),
{
    if t.len() == 0 {
        0
    } else {
        digits_val(t.drop_last()) * 10 + digit_val(t.last())
    }
}

/// A non-negative decimal integer as `str::parse` accepts it: an optional
/// leading `+`, then at least one digit.
pub open spec fn spec_parse_num(t: Seq<char>) -> Option<int> {
    let u = if t.len() > 0 && t[0] == '+' {
        t.drop_first()
    } else {
        t
    };
    if u.len() > 0 && all_digits(u) {
        Some(digits_val(u))
    } else {
        None
    }
}

/// The index of the first occurrence of `c`, if any.
pub open spec fn spec_find(t: Seq<char>, c: char) -> Option<int>
    decreases t.len(),
{
    if t.len() == 0 {
        None
    } else if t[0] == c {
        Some(0int)
    } else {
        match spec_find(t.drop_first(), c) {
            Some(i) => Some(i + 1),
            None => None,
        }
    }
}

/// What `spec_find` returns: the first occurrence, or nothing when the
/// character does not occur.
pub proof fn lemma_find_props(t: Seq<char>, c: char)
    ensures
        match spec_find(t, c) {
            Some(k) => 0 <= k < t.len() && t[k] == c && forall|i: int| 0 <= i < k ==> t[i] != c,
            None => forall|i: int| 0 <= i < t.len() ==> t[i] != c,
        },
    decreases t.len(),
{
    if t.len() > 0 && t[0] != c {
        lemma_find_props(t.drop_first(), c);
        match spec_find(t.drop_first(), c) {
            Some(i) => {
                assert(forall|i2: int| 0 <= i2 < i ==> t.drop_first()[i2] != c);
                assert forall|i2: int| 0 <= i2 < i + 1 implies t[i2] != c by {
                    if i2 > 0 {
                        assert(t.drop_first()[i2 - 1] != c);
                    }
                }
            },
            None => {
                assert forall|i2: int| 0 <= i2 < t.len() implies t[i2] != c by {
                    if i2 > 0 {
                        assert(t.drop_first()[i2 - 1] != c);
                    }
                }
            },
        }
    }
}

/// One token's effect: the inclusive range of values it adds to the set
/// (adding nothing when the range is reversed). A bare number `n` is the
/// range `n..=n`; every operand must lie in the fixed domain `0..=26`.
pub open spec fn spec_parse_token(t: Seq<char>) -> Option<(int, int)> {
    let t1 = spec_trim(t);
    match spec_find(t1, '-') {
        Some(m) => {
            let a = spec_parse_num(spec_trim(t1.take(m)));
            let b = spec_parse_num(spec_trim(t1.skip(m + 1)));
            if a is Some && b is Some && a.unwrap() <= 26 && b.unwrap() <= 26 {
                Some((a.unwrap(), b.unwrap()))
            } else {
                None
            }
        },
        None => {
            match spec_parse_num(t1) {
                Some(v) => if v <= 26 {
                    Some((v, v))
                } else {
                    None
                },
                None => None,
            }
        },
    }
}

/// `v` with every slot in `lo..=hi` set.
pub open spec fn spec_apply_token(v: Seq<bool>, lo: int, hi: int) -> Seq<bool> {
    Seq::new(v.len(), |i: int| v[i] || (lo <= i <= hi))
}

/// Parse a non-empty comma-separated token list, accumulating set slots
/// into `v`; any failing token fails the whole parse.
pub open spec fn spec_parse_list(s: Seq<char>, v: Seq<bool>) -> Option<Seq<bool>>
    decreases s.len(),
    via spec_parse_list_dec
{
    match spec_find(s, ',') {
        None => match spec_parse_token(s) {
            Some(r) => Some(spec_apply_token(v, r.0, r.1)),
            None => None,
        },
        Some(k) => match spec_parse_token(s.take(k)) {
            Some(r) => spec_parse_list(s.skip(k + 1), spec_apply_token(v, r.0, r.1)),
            None => None,
        },
    }
}

#[via_fn]
proof fn spec_parse_list_dec(s: Seq<char>, v: Seq<bool>) {
    lemma_find_props(s, ',');
}

pub open spec fn spec_empty_set() -> Seq<bool> {
    Seq::new(27, |i: int| false)
}

/// The whole mini-language: the empty string is the empty set, anything
/// else a comma-separated token list.
pub open spec fn spec_parse(s: Seq<char>) -> Option<Seq<bool>> {
    if s.len() == 0 {
        Some(spec_empty_set())
    } else {
        spec_parse_list(s, spec_empty_set())
    }
}

/// The last slot of the maximal run of set slots starting at `s`.
pub open spec fn spec_run_end(v: Seq<bool>, s: int) -> int
    decreases 26 - s,
{
    if s < 26 && v[s + 1] {
        spec_run_end(v, s + 1)
    } else {
        s
    }
}

pub proof fn lemma_run_end_props(v: Seq<bool>, s: int)
    requires
        0 <= s <= 26,
    ensures
        s <= spec_run_end(v, s) <= 26,
        forall|i: int| s < i <= spec_run_end(v, s) ==> #[trigger] v[i],
        spec_run_end(v, s) < 26 ==> !v[spec_run_end(v, s) + 1],
    decreases 26 - s,
{
    if s < 26 && v[s + 1] {
        lemma_run_end_props(v, s + 1);
    }
}

pub open spec fn spec_digit_char(d: int) -> char {
    if d == 0 {
        '0'
    } else if d == 1 {
        '1'
    } else if d == 2 {
        '2'
    } else if d == 3 {
        '3'
    } else if d == 4 {
        '4'
    } else if d == 5 {
        '5'
    } else if d == 6 {
        '6'
    } else if d == 7 {
        '7'
    } else if d == 8 {
        '8'
    } else {
        '9'
    }
}

/// The decimal rendering of a value in the fixed domain: one or two
/// digits, no sign.
pub open spec fn spec_dec(n: int) -> Seq<char> {
    if n < 10 {
        seq![spec_digit_char(n)]
    } else {
        seq![spec_digit_char(n / 10), spec_digit_char(n % 10)]
    }
}

/// The canonical serialization from slot `s` on: each maximal run of set
/// slots renders as `start-end` when it has three or more members and as
/// its bare members (comma-joined like everything else) otherwise.
pub open spec fn spec_serialize_from(v: Seq<bool>, s: int) -> Seq<char>
    decreases 27 - s,
    via spec_serialize_from_dec
{
    if s < 0 || s > 26 {
        Seq::empty()
    } else if !v[s] {
        spec_serialize_from(v, s + 1)
    } else {
        let e = spec_run_end(v, s);
        if e >= s + 2 {
            let tok = spec_dec(s) + seq!['-'] + spec_dec(e);
            let rest = spec_serialize_from(v, e + 1);
            if rest.len() == 0 {
                tok
            } else {
                tok + seq![','] + rest
            }
        } else {
            let tok = spec_dec(s);
            let rest = spec_serialize_from(v, s + 1);
            if rest.len() == 0 {
                tok
            } else {
                tok + seq![','] + rest
            }
        }
    }
}

#[via_fn]
proof fn spec_serialize_from_dec(v: Seq<bool>, s: int) {
    if 0 <= s <= 26 {
        lemma_run_end_props(v, s);
    }
}

/// The canonical textual form of a membership set.
pub open spec fn spec_serialize(v: Seq<bool>) -> Seq<char> {
    spec_serialize_from(v, 0)
}

pub proof fn lemma_digit_char(d: int)
    requires
        0 <= d <= 9,
    ensures
        is_digit(spec_digit_char(d)),
        digit_val(spec_digit_char(d)) == d,
{
}

/// The decimal rendering of an in-domain value: all digits (so free of
/// signs, separators and spaces), and parsing it recovers the value.
pub proof fn lemma_dec_props(n: int)
    requires
        0 <= n <= 26,
    ensures
        1 <= spec_dec(n).len() <= 2,
        all_digits(spec_dec(n)),
        spec_trim(spec_dec(n)) == spec_dec(n),
        spec_find(spec_dec(n), '-') is None,
        spec_find(spec_dec(n), ',') is None,
        spec_parse_num(spec_dec(n)) == Some(n),
{
    let t = spec_dec(n);
    if n < 10 {
        lemma_digit_char(n);
        assert(t.len() == 1);
        assert(t[0] == spec_digit_char(n));
        assert(digits_val(t) == digits_val(t.drop_last()) * 10 + digit_val(t.last()));
        assert(t.drop_last() =~= Seq::<char>::empty());
        assert(digits_val(t) == n);
    } else {
        lemma_digit_char(n / 10);
        lemma_digit_char(n % 10);
        vstd::arithmetic::div_mod::lemma_fundamental_div_mod(n, 10);
        vstd::arithmetic::div_mod::lemma_mod_bound(n, 10);
        assert(t.len() == 2);
        let u = seq![spec_digit_char(n / 10)];
        assert(u.drop_last() =~= Seq::<char>::empty());
        assert(digits_val(Seq::<char>::empty()) == 0);
        assert(digits_val(u) == digits_val(u.drop_last()) * 10 + digit_val(u.last()));
        assert(digits_val(u) == n / 10);
        assert(t.drop_last() =~= u);
        assert(digits_val(t) == digits_val(t.drop_last()) * 10 + digit_val(t.last()));
        assert(digits_val(t) == (n / 10) * 10 + (n % 10));
        assert(digits_val(t) == n);
    }
    assert(!is_space(t[0]));
    assert(!is_space(t.last()));
    assert(trim_front(t) == t);
    assert(trim_back(t) == t);
    lemma_find_props(t, '-');
    if spec_find(t, '-') is Some {
        let k = spec_find(t, '-').unwrap();
        assert(is_digit(t[k]));
        assert(false);
    }
    lemma_find_props(t, ',');
    if spec_find(t, ',') is Some {
        let k = spec_find(t, ',').unwrap();
        assert(is_digit(t[k]));
        assert(false);
    }
    assert(t[0] != '+');
}

/// A bare rendered number is the token `n..=n`.
pub proof fn lemma_token_single(n: int)
    requires
        0 <= n <= 26,
    ensures
        spec_parse_token(spec_dec(n)) == Some((n, n)),
{
    lemma_dec_props(n);
}

/// A rendered range `a-e` is the token `a..=e`.
pub proof fn lemma_token_range(a: int, e: int)
    requires
        0 <= a <= 26,
        0 <= e <= 26,
    ensures
        spec_parse_token(spec_dec(a) + seq!['-'] + spec_dec(e)) == Some((a, e)),
        spec_find(spec_dec(a) + seq!['-'] + spec_dec(e), ',') is None,
{
    lemma_dec_props(a);
    lemma_dec_props(e);
    let t = spec_dec(a) + seq!['-'] + spec_dec(e);
    let da = spec_dec(a);
    let de = spec_dec(e);
    let m = da.len() as int;
    assert(t.len() == da.len() + 1 + de.len());
    assert(t[m] == '-');
    assert(forall|i: int| 0 <= i < m ==> t[i] == da[i]);
    assert(forall|i: int| m < i < t.len() ==> t[i] == de[i - m - 1]);
    // no spaces anywhere, so trimming is the identity
    assert(!is_space(t[0]));
    assert(!is_space(t.last()));
    assert(trim_front(t) == t);
    assert(trim_back(t) == t);
    // the first '-' is the separator
    lemma_find_props(t, '-');
    match spec_find(t, '-') {
        Some(k) => {
            if k < m {
                assert(is_digit(t[k]));
                assert(false);
            }
            if k > m {
                assert(t[m] == '-');
                assert(false);
            }
        },
        None => {
            assert(t[m] == '-');
            assert(false);
        },
    }
    assert(spec_find(t, '-') == Some(m));
    assert(t.take(m) =~= da);
    assert(t.skip(m + 1) =~= de);
    // no comma anywhere
    lemma_find_props(t, ',');
    if spec_find(t, ',') is Some {
        let k = spec_find(t, ',').unwrap();
        if k < m {
            assert(is_digit(t[k]));
        } else if k == m {
            assert(t[k] == '-');
        } else {
            assert(is_digit(de[k - m - 1]));
        }
        assert(false);
    }
}

/// A 27-slot boolean membership table, indexed by neighbour count. The
/// domain covers the maximum possible Moore neighbour count, and the same
/// representation serves the Von Neumann topology (counts never above 6).
#[derive(Debug, Clone, Copy, PartialEq, Eq)]
pub struct Indexes(pub [bool; 27]);

impl View for Indexes {
    type V = Seq<bool>;

    open spec fn view(&self) -> Seq<bool> {
        self.0@
    }
}

impl Indexes {
    /// The set of exactly the listed values.
    pub fn new(indexes: &[u8]) -> (r: Self)
        requires
            forall|k: int| 0 <= k < indexes@.len() ==> indexes@[k] <= 26,
        ensures
            r@.len() == 27,
            forall|i: int|
                0 <= i < 27 ==> (#[trigger] r@[i] <==> indexes@.contains(i as u8)),
    {
        let mut bits: [bool; 27] = [false; 27];
        let n = indexes.len();
        let mut k: usize = 0;
        while k < n
            invariant
                n == indexes@.len(),
                k <= n,
                bits@.len() == 27,
                forall|k2: int| 0 <= k2 < n ==> indexes@[k2] <= 26,
                forall|i: int|
                    0 <= i < 27 ==> (#[trigger] bits@[i] <==> exists|j: int|
                        0 <= j < k && indexes@[j] == i as u8),
            decreases n - k,
        {
            let v = indexes[k];
            bits[v as usize] = true;
            k = k + 1;
        }
        let r = Indexes(bits);
        assert forall|i: int| 0 <= i < 27 implies (#[trigger] r@[i] <==> indexes@.contains(
            i as u8,
        )) by {
            if r@[i] {
                let j = choose|j: int| 0 <= j < n && indexes@[j] == i as u8;
                assert(indexes@.contains(i as u8));
            }
            if indexes@.contains(i as u8) {
                let j = choose|j: int| 0 <= j < indexes@.len() && indexes@[j] == i as u8;
                assert(r@[i]);
            }
        }
        r
    }

    /// The set of every value in the inclusive range.
    pub fn from_range(indexes: RangeInclusive<u8>) -> (r: Self)
        requires
            !indexes@.exhausted,
            indexes@.start <= indexes@.end ==> indexes@.end <= 26,
        ensures
            r@.len() == 27,
            forall|i: int|
                0 <= i < 27 ==> (#[trigger] r@[i] <==> indexes@.start <= i <= indexes@.end),
    {
        let a = *indexes.start();
        let b = *indexes.end();
        let mut bits: [bool; 27] = [false; 27];
        if a <= b {
            let mut v = a;
            while v < b
                invariant
                    a <= v <= b,
                    b <= 26,
                    bits@.len() == 27,
                    forall|i: int| 0 <= i < 27 ==> (#[trigger] bits@[i] <==> a <= i < v),
                decreases b - v,
            {
                bits[v as usize] = true;
                v = v + 1;
            }
            bits[v as usize] = true;
        }
        Indexes(bits)
    }

    /// Parse the textual mini-language: comma-separated tokens, each a bare
    /// number or an inclusive range `a-b`, whitespace trimmed, every value
    /// in `0..=26`. Any failing token fails the whole parse and the
    /// previous set stays with the caller; the empty string is the empty
    /// set.
    pub fn parse_str(s: &str) -> (r: Option<Indexes>)
        ensures
            ({
                let sp = spec_parse(s@);
                match r {
                    Some(ix) => sp is Some && ix@ == sp.unwrap(),
                    None => sp is None,
                }
            }),
    {
        let n = s.unicode_len();
        if n == 0 {
            let ix = Indexes([false; 27]);
            proof {
                assert(ix@ =~= spec_empty_set());
            }
            return Some(ix);
        }
        let bits: [bool; 27] = [false; 27];
        proof {
            assert(s@.skip(0) =~= s@);
            assert(bits@ =~= spec_empty_set());
        }
        match parse_list_exec(s, 0, n, bits) {
            Some(out) => Some(Indexes(out)),
            None => None,
        }
    }

    /// Membership test; the caller must stay inside the fixed domain.
    pub fn has(&self, idx: u8) -> (r: bool)
        requires
            idx <= 26,
        ensures
            r == self@[idx as int],
    {
        self.0[idx as usize]
    }
}

fn push_digit(out: &mut String, d: u8)
    requires
        d <= 9,
    ensures
        final(out)@ == old(out)@ + seq![spec_digit_char(d as int)],
{
    let s: &str = if d == 0 {
        "0"
    } else if d == 1 {
        "1"
    } else if d == 2 {
        "2"
    } else if d == 3 {
        "3"
    } else if d == 4 {
        "4"
    } else if d == 5 {
        "5"
    } else if d == 6 {
        "6"
    } else if d == 7 {
        "7"
    } else if d == 8 {
        "8"
    } else {
        "9"
    };
    proof {
        reveal_strlit("0");
        reveal_strlit("1");
        reveal_strlit("2");
        reveal_strlit("3");
        reveal_strlit("4");
        reveal_strlit("5");
        reveal_strlit("6");
        reveal_strlit("7");
        reveal_strlit("8");
        reveal_strlit("9");
        assert(s@ =~= seq![spec_digit_char(d as int)]);
    }
    out.append(s);
}

fn push_value(out: &mut String, n: u8)
    requires
        n <= 26,
    ensures
        final(out)@ == old(out)@ + spec_dec(n as int),
{
    if n >= 10 {
        push_digit(out, n / 10);
        push_digit(out, n % 10);
        proof {
            assert(out@ =~= old(out)@ + spec_dec(n as int));
        }
    } else {
        push_digit(out, n);
        proof {
            assert(out@ =~= old(out)@ + spec_dec(n as int));
        }
    }
}

fn push_sep(out: &mut String)
    ensures
        final(out)@ == old(out)@ + seq![','],
{
    proof {
        reveal_strlit(",");
        assert(","@ =~= seq![',']);
    }
    out.append(",");
}

fn push_dash(out: &mut String)
    ensures
        final(out)@ == old(out)@ + seq!['-'],
{
    proof {
        reveal_strlit("-");
        assert("-"@ =~= seq!['-']);
    }
    out.append("-");
}

impl Indexes {
    /// The canonical textual form: maximal runs of members, in order,
    /// comma-joined; a run of three or more renders as `start-end`, a
    /// shorter one as bare numbers.
    pub fn to_string(&self) -> (r: String)
        ensures
            r@ == spec_serialize(self@),
    {
        let mut out = String::new();
        let mut emitted = false;
        let mut start: usize = 0;
        while start < 27
            invariant
                start <= 27,
                self@.len() == 27,
                !emitted ==> out@.len() == 0 && spec_serialize(self@) == spec_serialize_from(
                    self@,
                    start as int,
                ),
                emitted ==> spec_serialize(self@) == out@ + (if spec_serialize_from(
                    self@,
                    start as int,
                ).len() > 0 {
                    seq![','] + spec_serialize_from(self@, start as int)
                } else {
                    Seq::<char>::empty()
                }),
            decreases 27 - start,
        {
            if self.0[start] {
                let mut end = start;
                while end < 26 && self.0[end + 1]
                    invariant
                        start <= end <= 26,
                        start < 27,
                        self@.len() == 27,
                        self@[start as int],
                        spec_run_end(self@, start as int) == spec_run_end(self@, end as int),
                    decreases 26 - end,
                {
                    end = end + 1;
                }
                proof {
                    assert(spec_run_end(self@, end as int) == end as int);
                    lemma_run_end_props(self@, start as int);
                }
                let ghost pre = out@;
                let ghost was_emitted = emitted;
                if emitted {
                    push_sep(&mut out);
                } else {
                    emitted = true;
                }
                if end >= start + 2 {
                    push_value(&mut out, start as u8);
                    push_dash(&mut out);
                    push_value(&mut out, end as u8);
                    proof {
                        let v = self@;
                        let tok = spec_dec(start as int) + seq!['-'] + spec_dec(end as int);
                        let rest = spec_serialize_from(v, end as int + 1);
                        assert(spec_serialize_from(v, start as int) == if rest.len() == 0 {
                            tok
                        } else {
                            tok + seq![','] + rest
                        });
                        if was_emitted {
                            assert(out@ =~= pre + seq![','] + tok);
                            assert(spec_serialize(v) =~= out@ + (if rest.len() > 0 {
                                seq![','] + rest
                            } else {
                                Seq::<char>::empty()
                            }));
                        } else {
                            assert(out@ =~= tok);
                            assert(spec_serialize(v) =~= out@ + (if rest.len() > 0 {
                                seq![','] + rest
                            } else {
                                Seq::<char>::empty()
                            }));
                        }
                    }
                    start = end + 1;
                } else {
                    push_value(&mut out, start as u8);
                    proof {
                        let v = self@;
                        let tok = spec_dec(start as int);
                        let rest = spec_serialize_from(v, start as int + 1);
                        assert(spec_serialize_from(v, start as int) == if rest.len() == 0 {
                            tok
                        } else {
                            tok + seq![','] + rest
                        });
                        if was_emitted {
                            assert(out@ =~= pre + seq![','] + tok);
                            assert(spec_serialize(v) =~= out@ + (if rest.len() > 0 {
                                seq![','] + rest
                            } else {
                                Seq::<char>::empty()
                            }));
                        } else {
                            assert(out@ =~= tok);
                            assert(spec_serialize(v) =~= out@ + (if rest.len() > 0 {
                                seq![','] + rest
                            } else {
                                Seq::<char>::empty()
                            }));
                        }
                    }
                    start = start + 1;
                }
            } else {
                start = start + 1;
            }
        }
        proof {
            if emitted {
                assert(spec_serialize(self@) =~= out@);
            } else {
                assert(spec_serialize(self@) =~= out@);
            }
        }
        out
    }
}

/// The slots of `v` from `s` on, merged into `acc`.
pub open spec fn spec_or_from(acc: Seq<bool>, v: Seq<bool>, s: int) -> Seq<bool> {
    Seq::new(acc.len(), |i: int| acc[i] || (i >= s && v[i]))
}

/// The serialization from `s` on is empty exactly when no slot from `s` on
/// is set.
pub proof fn lemma_serialize_empty(v: Seq<bool>, s: int)
    requires
        v.len() == 27,
        0 <= s <= 27,
    ensures
        (spec_serialize_from(v, s).len() == 0) <==> (forall|i: int|
            s <= i < 27 ==> !(#[trigger] v[i])),
    decreases 27 - s,
{
    if s <= 26 {
        if !v[s] {
            lemma_serialize_empty(v, s + 1);
        } else {
            lemma_run_end_props(v, s);
        }
    }
}

/// Parsing the serialization from slot `s` on merges exactly the set slots
/// from `s` on into the accumulator.
#[verifier::rlimit(100)]
proof fn lemma_parse_serialize_from(v: Seq<bool>, s: int, acc: Seq<bool>)
    requires
        v.len() == 27,
        acc.len() == 27,
        0 <= s <= 27,
        spec_serialize_from(v, s).len() > 0,
    ensures
        spec_parse_list(spec_serialize_from(v, s), acc) == Some(spec_or_from(acc, v, s)),
    decreases 27 - s,
{
    let ser = spec_serialize_from(v, s);
    if !v[s] {
        lemma_parse_serialize_from(v, s + 1, acc);
        assert(spec_or_from(acc, v, s + 1) =~= spec_or_from(acc, v, s));
    } else {
        let e = spec_run_end(v, s);
        lemma_run_end_props(v, s);
        let long = e >= s + 2;
        let tok = if long {
            spec_dec(s) + seq!['-'] + spec_dec(e)
        } else {
            spec_dec(s)
        };
        let nxt = if long {
            e + 1
        } else {
            s + 1
        };
        let rest = spec_serialize_from(v, nxt);
        let lo = s;
        let hi = if long {
            e
        } else {
            s
        };
        if long {
            lemma_token_range(s, e);
        } else {
            lemma_token_single(s);
            lemma_dec_props(s);
        }
        assert(spec_parse_token(tok) == Some((lo, hi)));
        assert(spec_find(tok, ',') is None);
        lemma_find_props(tok, ',');
        if rest.len() == 0 {
            assert(ser == tok);
            lemma_find_props(ser, ',');
            if spec_find(ser, ',') is Some {
                let k = spec_find(ser, ',').unwrap();
                assert(ser[k] == ',');
                assert(false);
            }
            assert(spec_parse_list(ser, acc) == Some(spec_apply_token(acc, lo, hi)));
            lemma_serialize_empty(v, nxt);
            assert forall|i: int| 0 <= i < 27 implies spec_apply_token(acc, lo, hi)[i]
                == spec_or_from(acc, v, s)[i] by {
                if lo <= i <= hi {
                    assert(v[i]);
                }
                if i > hi {
                    assert(!v[i]);
                }
            }
            assert(spec_apply_token(acc, lo, hi) =~= spec_or_from(acc, v, s));
        } else {
            assert(ser == tok + seq![','] + rest);
            let m = tok.len() as int;
            assert(ser[m] == ',');
            assert(forall|i: int| 0 <= i < m ==> ser[i] == tok[i]);
            lemma_find_props(ser, ',');
            match spec_find(ser, ',') {
                None => {
                    assert(false);
                },
                Some(k) => {
                    if k < m {
                        assert(ser[k] == tok[k]);
                        assert(tok[k] != ',');
                        assert(false);
                    }
                    if k > m {
                        assert(false);
                    }
                },
            }
            assert(spec_find(ser, ',') == Some(m));
            assert(ser.take(m) =~= tok);
            assert(ser.skip(m + 1) =~= rest);
            lemma_parse_serialize_from(v, nxt, spec_apply_token(acc, lo, hi));
            assert(spec_parse_list(ser, acc) == spec_parse_list(
                rest,
                spec_apply_token(acc, lo, hi),
            ));
            assert forall|i: int| 0 <= i < 27 implies spec_or_from(
                spec_apply_token(acc, lo, hi),
                v,
                nxt,
            )[i] == spec_or_from(acc, v, s)[i] by {
                if lo <= i <= hi {
                    assert(v[i]);
                }
            }
            assert(spec_or_from(spec_apply_token(acc, lo, hi), v, nxt) =~= spec_or_from(
                acc,
                v,
                s,
            ));
        }
    }
}

/// The round trip law: parsing the canonical serialization of any
/// membership set yields exactly that set.
pub proof fn lemma_parse_serialize(v: Seq<bool>)
    requires
        v.len() == 27,
    ensures
        spec_parse(spec_serialize(v)) == Some(v),
{
    if spec_serialize(v).len() == 0 {
        lemma_serialize_empty(v, 0);
        assert(spec_empty_set() =~= v);
    } else {
        lemma_parse_serialize_from(v, 0, spec_empty_set());
        assert(spec_or_from(spec_empty_set(), v, 0) =~= v);
    }
}

fn is_space_c(c: char) -> (r: bool)
    ensures
        r == is_space(c),
{
    c == ' ' || c == '\t' || c == '\n' || c == '\r' || c == '\u{b}' || c == '\u{c}'
}

/// The sub-token `[lo, hi)` of `s` with surrounding whitespace removed,
/// as a narrowed index range.
fn trim_range(s: &str, lo: usize, hi: usize) -> (r: (usize, usize))
    requires
        lo <= hi,
        hi as int <= s@.len(),
    ensures
        lo <= r.0 <= r.1 <= hi,
        spec_trim(s@.subrange(lo as int, hi as int)) == s@.subrange(r.0 as int, r.1 as int),
{
    let mut a = lo;
    while a < hi && is_space_c(s.get_char(a))
        invariant
            lo <= a <= hi,
            hi as int <= s@.len(),
            trim_front(s@.subrange(lo as int, hi as int)) == trim_front(
                s@.subrange(a as int, hi as int),
            ),
        decreases hi - a,
    {
        proof {
            assert(s@.subrange(a as int, hi as int).drop_first() =~= s@.subrange(
                a as int + 1,
                hi as int,
            ));
        }
        a = a + 1;
    }
    proof {
        assert(trim_front(s@.subrange(a as int, hi as int)) == s@.subrange(a as int, hi as int));
    }
    let mut b = hi;
    while b > a && is_space_c(s.get_char(b - 1))
        invariant
            a <= b <= hi,
            hi as int <= s@.len(),
            trim_back(s@.subrange(a as int, hi as int)) == trim_back(
                s@.subrange(a as int, b as int),
            ),
        decreases b,
    {
        proof {
            assert(s@.subrange(a as int, b as int).drop_last() =~= s@.subrange(
                a as int,
                b as int - 1,
            ));
        }
        b = b - 1;
    }
    proof {
        assert(trim_back(s@.subrange(a as int, b as int)) == s@.subrange(a as int, b as int));
    }
    (a, b)
}

/// The first occurrence of `c` in `[lo, hi)` of `s`, or `hi` when there is
/// none, tied to `spec_find` on the sub-token.
fn find_char(s: &str, lo: usize, hi: usize, c: char) -> (r: usize)
    requires
        lo <= hi,
        hi as int <= s@.len(),
    ensures
        lo <= r <= hi,
        r < hi ==> spec_find(s@.subrange(lo as int, hi as int), c) == Some(r as int - lo as int),
        r == hi ==> spec_find(s@.subrange(lo as int, hi as int), c) is None,
{
    let mut k = lo;
    while k < hi && s.get_char(k) != c
        invariant
            lo <= k <= hi,
            hi as int <= s@.len(),
            forall|i: int| lo <= i < k ==> s@[i] != c,
        decreases hi - k,
    {
        k = k + 1;
    }
    proof {
        let t = s@.subrange(lo as int, hi as int);
        lemma_find_props(t, c);
        if k < hi {
            assert(t[k as int - lo as int] == c);
        }
    }
    k
}

/// Parse `[lo, hi)` of `s` as a trimmed unsigned decimal, saturating the
/// returned value at 27 (everything above the fixed domain is rejected by
/// the caller anyway, before overflow could matter).
fn parse_num_exec(s: &str, lo: usize, hi: usize) -> (r: Option<u8>)
    requires
        lo <= hi,
        hi as int <= s@.len(),
    ensures
        ({
            let sp = spec_parse_num(spec_trim(s@.subrange(lo as int, hi as int)));
            match r {
                Some(v) => sp is Some && v as int == if sp.unwrap() <= 26 {
                    sp.unwrap()
                } else {
                    27int
                },
                None => sp is None,
            }
        }),
{
    let (a0, b) = trim_range(s, lo, hi);
    let ghost t = spec_trim(s@.subrange(lo as int, hi as int));
    let mut a = a0;
    if a < b && s.get_char(a) == '+' {
        a = a + 1;
        proof {
            assert(t.drop_first() =~= s@.subrange(a as int, b as int));
        }
    }
    let ghost u = s@.subrange(a as int, b as int);
    proof {
        assert(t.len() == b as int - a0 as int);
        if a0 < b {
            assert(t[0] == s@[a0 as int]);
        }
    }
    if a == b {
        return None;
    }
    let mut val: u16 = 0;
    let mut i = a;
    while i < b
        invariant
            a <= i <= b,
            b as int <= s@.len(),
            lo <= hi,
            hi as int <= s@.len(),
            a < b,
            t == spec_trim(s@.subrange(lo as int, hi as int)),
            u == (if t.len() > 0 && t[0] == '+' {
                t.drop_first()
            } else {
                t
            }),
            u == s@.subrange(a as int, b as int),
            forall|j: int| a <= j < i ==> is_digit(#[trigger] s@[j]),
            ({
                let dv = digits_val(s@.subrange(a as int, i as int));
                &&& dv >= 0
                &&& (dv <= 26 ==> val == dv)
                &&& (dv > 26 ==> val == 27)
                &&& val <= 27
            }),
        decreases b - i,
    {
        let c = s.get_char(i);
        let cu = c as u32;
        if cu < 48 || cu > 57 {
            proof {
                assert(u[i as int - a as int] == s@[i as int]);
                assert(!all_digits(u));
            }
            return None;
        }
        let d = (cu - 48) as u16;
        proof {
            assert(s@.subrange(a as int, i as int + 1).drop_last() =~= s@.subrange(
                a as int,
                i as int,
            ));
            assert(s@.subrange(a as int, i as int + 1).last() == s@[i as int]);
        }
        val = if val > 2 || val * 10 + d > 26 {
            27
        } else {
            val * 10 + d
        };
        i = i + 1;
    }
    proof {
        assert forall|j: int| 0 <= j < u.len() implies is_digit(#[trigger] u[j]) by {
            assert(u[j] == s@[a as int + j]);
        }
    }
    Some(val as u8)
}

/// Parse `[lo, hi)` of `s` as one token, returning the inclusive range it
/// adds (operands saturated at 27 never pass the domain check).
fn parse_token_exec(s: &str, lo: usize, hi: usize) -> (r: Option<(u8, u8)>)
    requires
        lo <= hi,
        hi as int <= s@.len(),
    ensures
        ({
            let sp = spec_parse_token(s@.subrange(lo as int, hi as int));
            match r {
                Some(v) => sp is Some && v.0 as int == sp.unwrap().0 && v.1 as int
                    == sp.unwrap().1 && v.1 <= 26,
                None => sp is None,
            }
        }),
{
    let (a, b) = trim_range(s, lo, hi);
    let ghost t1 = spec_trim(s@.subrange(lo as int, hi as int));
    let m = find_char(s, a, b, '-');
    if m < b {
        proof {
            assert(t1.take(m as int - a as int) =~= s@.subrange(a as int, m as int));
            assert(t1.skip(m as int - a as int + 1) =~= s@.subrange(m as int + 1, b as int));
        }
        let x = parse_num_exec(s, a, m);
        let y = parse_num_exec(s, m + 1, b);
        match (x, y) {
            (Some(va), Some(vb)) => if va <= 26 && vb <= 26 {
                Some((va, vb))
            } else {
                None
            },
            _ => None,
        }
    } else {
        proof {
            lemma_trim_idem(s@.subrange(lo as int, hi as int));
            assert(spec_trim(s@.subrange(a as int, b as int)) == t1);
        }
        match parse_num_exec(s, a, b) {
            Some(v) => if v <= 26 {
                Some((v, v))
            } else {
                None
            },
            None => None,
        }
    }
}

/// Parse the comma-separated token list from `pos` on, over accumulated
/// membership `bits`.
fn parse_list_exec(s: &str, pos: usize, n: usize, bits: [bool; 27]) -> (r: Option<[bool; 27]>)
    requires
        n as int == s@.len(),
        pos <= n,
    ensures
        ({
            let sp = spec_parse_list(s@.skip(pos as int), bits@);
            match r {
                Some(out) => sp is Some && out@ == sp.unwrap(),
                None => sp is None,
            }
        }),
    decreases n - pos,
{
    proof {
        assert(s@.skip(pos as int) =~= s@.subrange(pos as int, n as int));
    }
    let k = find_char(s, pos, n, ',');
    proof {
        if k < n {
            assert(s@.skip(pos as int).take(k as int - pos as int) =~= s@.subrange(
                pos as int,
                k as int,
            ));
        }
    }
    match parse_token_exec(s, pos, k) {
        None => None,
        Some((lo, hi)) => {
            let mut newbits = bits;
            if lo <= hi {
                let mut v = lo;
                while v < hi
                    invariant
                        lo <= v <= hi,
                        hi <= 26,
                        newbits@.len() == 27,
                        forall|i: int|
                            0 <= i < 27 ==> (#[trigger] newbits@[i] == (bits@[i] || (lo as int
                                <= i < v as int))),
                    decreases hi - v,
                {
                    newbits[v as usize] = true;
                    v = v + 1;
                }
                newbits[v as usize] = true;
            }
            proof {
                assert(newbits@ =~= spec_apply_token(bits@, lo as int, hi as int));
            }
            if k == n {
                Some(newbits)
            } else {
                proof {
                    assert(s@.skip(pos as int).skip(k as int - pos as int + 1) =~= s@.skip(
                        k as int + 1,
                    ));
                }
                parse_list_exec(s, k + 1, n, newbits)
            }
        },
    }
}

impl Default for Indexes {
    /// The empty set.
    fn default() -> (r: Indexes)
        ensures
            r@.len() == 27,
            forall|i: int| 0 <= i < 27 ==> !(#[trigger] r@[i]),
    {
        Indexes([false; 27])
    }
}

} // verus!
