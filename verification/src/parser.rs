//! The decoder: a recursive-descent reader over a character sequence.
//!
//! The grammar is written once as spec functions (`spec_parse_value` and
//! its companions) and the executable [`Lexer`] is proved to return exactly
//! what the grammar assigns to its input.

use vstd::prelude::*;
use vstd::string::StrSliceExecFns;

use crate::value::entries_view;
use crate::value::values_view;
use crate::value::DecodeError;
use crate::value::Value;
use crate::value::ValueSpec;

verus! {

/// Whether `c` is an ASCII decimal digit, `'0'` through `'9'`.
pub open spec fn is_bdigit(c: char) -> bool {
    48 <= c as u32 <= 57
}

/// The numeric value of a digit character.
pub open spec fn digit_val(c: char) -> int {
    c as u32 - 48
}

/// The number denoted by a run of digit characters, most significant first.
pub open spec fn digits_val(s: Seq<char>) -> int
    decreases s.len(),
{
    if s.len() == 0 {
        0
    } else {
        digits_val(s.drop_last()) * 10 + digit_val(s.last())
    }
}

/// The first position at or after `i` that holds no digit (or the end of
/// the input): the digit run starting at `i` is `s.subrange(i, digit_run_end(s, i))`.
pub open spec fn digit_run_end(s: Seq<char>, i: int) -> int
    decreases s.len() - i,
{
    if i < s.len() && is_bdigit(s[i]) {
        digit_run_end(s, i + 1)
    } else {
        i
    }
}

/// Appending a digit multiplies the run's value by ten and adds the digit.
proof fn lemma_digits_val_push(s: Seq<char>, c: char)
    ensures
        digits_val(s.push(c)) == digits_val(s) * 10 + digit_val(c),
{
    assert(s.push(c).drop_last() =~= s);
}

/// A run of digit characters denotes a nonnegative number.
proof fn lemma_digits_val_nonneg(s: Seq<char>)
    requires
        forall|k: int| 0 <= k < s.len() ==> is_bdigit(s[k]),
    ensures
        digits_val(s) >= 0,
    decreases s.len(),
{
    if s.len() > 0 {
        assert(forall|k: int| 0 <= k < s.len() - 1 ==> s.drop_last()[k] == s[k]);
        lemma_digits_val_nonneg(s.drop_last());
    }
}

/// The digit run starting at `i` stays within the input and consists of
/// digits only, and ends at the first non-digit.
proof fn lemma_digit_run_end(s: Seq<char>, i: int)
    requires
        0 <= i <= s.len(),
    ensures
        i <= digit_run_end(s, i) <= s.len(),
        forall|k: int| i <= k < digit_run_end(s, i) ==> is_bdigit(s[k]),
        digit_run_end(s, i) == s.len() || !is_bdigit(s[digit_run_end(s, i)]),
    decreases s.len() - i,
{
    if i < s.len() && is_bdigit(s[i]) {
        lemma_digit_run_end(s, i + 1);
    }
}

/// What parsing a string literal at position `i` yields: the payload
/// characters and the position just past them, or the error.
///
/// The form is a digit run giving the payload length, `':'`, then exactly
/// that many payload characters.  A missing digit run, a missing `':'`,
/// and a payload longer than the remaining input are all malformed.
pub open spec fn spec_parse_string(s: Seq<char>, i: int) -> Result<(Seq<char>, int), DecodeError> {
    let e = digit_run_end(s, i);
    if e == i {
        Err(DecodeError::MalformedString)
    } else if e >= s.len() || s[e] != ':' {
        Err(DecodeError::MalformedString)
    } else {
        let n = digits_val(s.subrange(i, e));
        if e + 1 + n > s.len() {
            Err(DecodeError::MalformedString)
        } else {
            Ok((s.subrange(e + 1, e + 1 + n), e + 1 + n))
        }
    }
}

/// What parsing an integer literal at position `i` (which holds `'i'`)
/// yields: the number and the position just past the closing `'e'`.
///
/// The form is `'i'`, a digit run, `'e'`.  A missing digit run, a value
/// that does not fit in an `i64`, and a missing `'e'` are all malformed.
/// No sign character is read: bencode at large permits a leading `'-'`,
/// but this decoder keeps to the digits-only grammar, so a negative
/// literal is rejected as a malformed integer.
pub open spec fn spec_parse_int(s: Seq<char>, i: int) -> Result<(ValueSpec, int), DecodeError> {
    let e = digit_run_end(s, i + 1);
    let n = digits_val(s.subrange(i + 1, e));
    if e == i + 1 {
        Err(DecodeError::MalformedInteger)
    } else if n > i64::MAX {
        Err(DecodeError::MalformedInteger)
    } else if e >= s.len() || s[e] != 'e' {
        Err(DecodeError::MalformedInteger)
    } else {
        Ok((ValueSpec::Integer(n), e + 1))
    }
}

/// The position of the first entry holding `key`, or `-1` if no entry does.
pub open spec fn dict_first_index(
    entries: Seq<(Seq<char>, ValueSpec)>,
    key: Seq<char>,
) -> int
    decreases entries.len(),
{
    if entries.len() == 0 {
        -1
    } else if entries[0].0 == key {
        0
    } else {
        let r = dict_first_index(entries.drop_first(), key);
        if r < 0 {
            -1
        } else {
            r + 1
        }
    }
}

/// Binding `key` to `v` in an association sequence: the value of an
/// existing key is overwritten in place, a new key is appended.
pub open spec fn dict_insert(
    entries: Seq<(Seq<char>, ValueSpec)>,
    key: Seq<char>,
    v: ValueSpec,
) -> Seq<(Seq<char>, ValueSpec)> {
    let r = dict_first_index(entries, key);
    if r >= 0 {
        entries.update(r, (key, v))
    } else {
        entries.push((key, v))
    }
}

/// `dict_first_index` finds the first entry holding the key, and returns
/// `-1` exactly when no entry holds it.
pub proof fn lemma_dict_first_index(entries: Seq<(Seq<char>, ValueSpec)>, key: Seq<char>)
    ensures
        dict_first_index(entries, key) == -1 <==> (forall|k: int|
            0 <= k < entries.len() ==> entries[k].0 != key),
        dict_first_index(entries, key) >= 0 ==> {
            let r = dict_first_index(entries, key);
            &&& r < entries.len()
            &&& entries[r].0 == key
            &&& forall|k: int| 0 <= k < r ==> entries[k].0 != key
        },
    decreases entries.len(),
{
    if entries.len() == 0 {
    } else if entries[0].0 == key {
    } else {
        lemma_dict_first_index(entries.drop_first(), key);
        assert(forall|k: int|
            1 <= k < entries.len() ==> entries[k] == entries.drop_first()[k - 1]);
    }
}

/// What parsing one value at position `i` yields: the value and the
/// position just past it, or the error.  The lookahead character picks the
/// form; a position at or past the end of the input is out of bounds.
pub open spec fn spec_parse_value(s: Seq<char>, i: int) -> Result<(ValueSpec, int), DecodeError>
    decreases s.len() - i, 0int,
{
    if !(0 <= i < s.len()) {
        Err(DecodeError::OutOfBounds)
    } else if s[i] == 'i' {
        spec_parse_int(s, i)
    } else if is_bdigit(s[i]) {
        match spec_parse_string(s, i) {
            Ok((p, j)) => Ok((ValueSpec::ByteString(p), j)),
            Err(e) => Err(e),
        }
    } else if s[i] == 'l' {
        match spec_parse_items(s, i + 1, Seq::empty()) {
            Ok((items, j)) => Ok((ValueSpec::List(items), j)),
            Err(e) => Err(e),
        }
    } else if s[i] == 'd' {
        match spec_parse_entries(s, i + 1, Seq::empty()) {
            Ok((entries, j)) => Ok((ValueSpec::Dictionary(entries), j)),
            Err(e) => Err(e),
        }
    } else {
        Err(DecodeError::UnexpectedToken)
    }
}

/// What parsing the elements of a list yields, starting at position `i`
/// with the elements `acc` already read: elements are read until a closing
/// `'e'`, which is consumed.  Exhausting the input first leaves the list
/// unterminated.
///
/// The bound `i < j <= s.len()` restates that parsing a value consumes at
/// least one character and stays within the input; it holds of every `Ok`
/// result of `spec_parse_value` and makes the recursion well-founded.
pub open spec fn spec_parse_items(
    s: Seq<char>,
    i: int,
    acc: Seq<ValueSpec>,
) -> Result<(Seq<ValueSpec>, int), DecodeError>
    decreases s.len() - i, 1int,
{
    if i >= s.len() {
        Err(DecodeError::UnterminatedAggregate)
    } else if s[i] == 'e' {
        Ok((acc, i + 1))
    } else {
        match spec_parse_value(s, i) {
            Ok((v, j)) => if i < j <= s.len() {
                spec_parse_items(s, j, acc.push(v))
            } else {
                Err(DecodeError::UnterminatedAggregate)
            },
            Err(e) => Err(e),
        }
    }
}

/// What parsing the entries of a dictionary yields, starting at position
/// `i` with the entries `acc` already read: key-value pairs are read until
/// a closing `'e'`, which is consumed.  A key position must hold a digit
/// (the start of a string literal); a duplicate key overwrites the earlier
/// value in place.  Exhausting the input first leaves the dictionary
/// unterminated.
pub open spec fn spec_parse_entries(
    s: Seq<char>,
    i: int,
    acc: Seq<(Seq<char>, ValueSpec)>,
) -> Result<(Seq<(Seq<char>, ValueSpec)>, int), DecodeError>
    decreases s.len() - i, 1int,
{
    if i >= s.len() {
        Err(DecodeError::UnterminatedAggregate)
    } else if s[i] == 'e' {
        Ok((acc, i + 1))
    } else if !is_bdigit(s[i]) {
        Err(DecodeError::ExpectedStringKey)
    } else {
        match spec_parse_string(s, i) {
            Ok((key, j)) => if i < j <= s.len() {
                match spec_parse_value(s, j) {
                    Ok((v, m)) => if j < m <= s.len() {
                        spec_parse_entries(s, m, dict_insert(acc, key, v))
                    } else {
                        Err(DecodeError::UnterminatedAggregate)
                    },
                    Err(e) => Err(e),
                }
            } else {
                Err(DecodeError::UnterminatedAggregate)
            },
            Err(e) => Err(e),
        }
    }
}

/// What decoding the whole input yields from position `i` on, with the
/// top-level values `acc` already read: values are read one after another
/// until the input is exhausted.
pub open spec fn spec_decode_from(
    s: Seq<char>,
    i: int,
    acc: Seq<ValueSpec>,
) -> Result<Seq<ValueSpec>, DecodeError>
    decreases s.len() - i, 2int,
{
    if i >= s.len() {
        Ok(acc)
    } else {
        match spec_parse_value(s, i) {
            Ok((v, j)) => if i < j <= s.len() {
                spec_decode_from(s, j, acc.push(v))
            } else {
                Err(DecodeError::OutOfBounds)
            },
            Err(e) => Err(e),
        }
    }
}

/// What decoding the whole input yields: the ordered sequence of sibling
/// top-level values, or the first error.
pub open spec fn spec_decode(s: Seq<char>) -> Result<Seq<ValueSpec>, DecodeError> {
    spec_decode_from(s, 0, Seq::empty())
}

/// Whether `c` is an ASCII decimal digit, as executable code.
fn is_digit_char(c: char) -> (b: bool)
    ensures
        b == is_bdigit(c),
{
    let u = c as u32;
    48 <= u && u <= 57
}

/// Whether two character vectors hold the same characters.
fn eq_chars(a: &Vec<char>, b: &Vec<char>) -> (r: bool)
    ensures
        r == (a@ == b@),
{
    if a.len() != b.len() {
        return false;
    }
    let mut t: usize = 0;
    while t < a.len()
        invariant
            t <= a.len(),
            a.len() == b.len(),
            forall|k: int| 0 <= k < t ==> a@[k] == b@[k],
        decreases a.len() - t,
    {
        if a[t] != b[t] {
            return false;
        }
        t = t + 1;
    }
    proof {
        assert(a@ =~= b@);
    }
    true
}

/// Binds `key` to `val` in the association vector: the first entry holding
/// the key is overwritten in place, a missing key is appended at the end.
fn dict_update(entries: &mut Vec<(Vec<char>, Value)>, key: Vec<char>, val: Value)
    ensures
        entries_view(final(entries)@) == dict_insert(
            entries_view(old(entries)@),
            key@,
            val@,
        ),
{
    let ghost e0 = entries_view(old(entries)@);
    let mut t: usize = 0;
    while t < entries.len()
        invariant
            t <= entries.len(),
            *entries == *old(entries),
            e0 == entries_view(old(entries)@),
            forall|k: int| 0 <= k < t ==> e0[k].0 != key@,
        decreases entries.len() - t,
    {
        if eq_chars(&entries[t].0, &key) {
            proof {
                lemma_dict_first_index(e0, key@);
                assert(e0[t as int].0 == key@);
                assert(dict_first_index(e0, key@) == t as int);
            }
            entries.remove(t);
            entries.insert(t, (key, val));
            proof {
                assert(entries_view(entries@) =~= e0.update(t as int, (key@, val@)));
            }
            return;
        }
        t = t + 1;
    }
    proof {
        lemma_dict_first_index(e0, key@);
    }
    entries.push((key, val));
    proof {
        assert(entries_view(entries@) =~= e0.push((key@, val@)));
    }
}

/// Re-decoding is idempotent: what a decode returns is a function of the
/// input characters alone, so two independent decodes of structurally equal
/// inputs return structurally equal value trees (or the same error).  Each
/// run of [`Lexer::lex`] on a fresh decoder returns exactly
/// `spec_decode` of its input, so no state leaks from one run into another.
pub proof fn lemma_decode_deterministic(s1: Seq<char>, s2: Seq<char>)
    requires
        s1 == s2,
    ensures
        spec_decode(s1) == spec_decode(s2),
{
}

/// The decoder.  It owns the character sequence being decoded and a
/// forward-only read cursor into it.
pub struct Lexer {
    /// The input, fully buffered before decoding starts.
    pub bencode: Vec<char>,
    /// The read position: everything before it has been consumed.
    pub current_index: usize,
}

impl Lexer {
    /// Builds a decoder over the characters of `bencode`, with the cursor
    /// at the start of the input.
    pub fn new(bencode: String) -> (l: Lexer)
        ensures
            l.bencode@ == bencode@,
            l.current_index == 0,
    {
        let n = bencode.as_str().unicode_len();
        let mut cs: Vec<char> = Vec::new();
        let mut k: usize = 0;
        while k < n
            invariant
                k <= n,
                n == bencode@.len(),
                cs@ == bencode@.subrange(0, k as int),
            decreases n - k,
        {
            cs.push(bencode.as_str().get_char(k));
            proof {
                assert(cs@ =~= bencode@.subrange(0, k + 1 as int));
            }
            k = k + 1;
        }
        proof {
            assert(cs@ =~= bencode@);
        }
        Lexer { bencode: cs, current_index: 0 }
    }

    /// Decodes top-level values one after another from the cursor to the
    /// end of the input and returns them in order, or returns the first
    /// error.  On a fresh decoder the result is exactly `spec_decode` of
    /// the input; the input itself is never changed.
    #[verifier::loop_isolation(false)]
    pub fn lex(&mut self) -> (r: Result<Vec<Value>, DecodeError>)
        ensures
            final(self).bencode == old(self).bencode,
            ({
                let d = spec_decode_from(
                    old(self).bencode@,
                    old(self).current_index as int,
                    Seq::empty(),
                );
                match r {
                    Ok(vs) => d == Ok::<Seq<ValueSpec>, DecodeError>(values_view(vs@))
                        && final(self).current_index >= old(self).bencode.len(),
                    Err(e) => d == Err::<Seq<ValueSpec>, DecodeError>(e),
                }
            }),
    {
        let ghost b0 = self.bencode;
        let ghost s = self.bencode@;
        let ghost i0 = self.current_index as int;
        let mut out: Vec<Value> = Vec::new();
        proof {
            assert(values_view(out@) =~= Seq::empty());
        }
        while self.current_index < self.bencode.len()
            invariant
                self.bencode == b0,
                s == self.bencode@,
                spec_decode_from(s, i0, Seq::empty()) == spec_decode_from(
                    s,
                    self.current_index as int,
                    values_view(out@),
                ),
            decreases self.bencode@.len() - self.current_index,
        {
            match self.parse_value(self.current_index) {
                Ok((v, j)) => {
                    proof {
                        assert(values_view(out@.push(v)) =~= values_view(out@).push(v@));
                    }
                    out.push(v);
                    self.current_index = j;
                },
                Err(e) => {
                    return Err(e);
                },
            }
        }
        Ok(out)
    }

    /// Scans the digit run that starts at `i` and returns the number it
    /// denotes together with the position just past the run.  `None` stands
    /// for a run that is empty or denotes a number beyond `u64::MAX`; the
    /// cursor still ends just past the run.
    fn iter_until_not_integer_and_return_it(&self, i: usize) -> (r: (Option<u64>, usize))
        requires
            i <= self.bencode.len(),
        ensures
            ({
                let s = self.bencode@;
                let e = digit_run_end(s, i as int);
                let v = digits_val(s.subrange(i as int, e));
                &&& r.1 as int == e
                &&& i <= r.1 <= self.bencode.len()
                &&& v >= 0
                &&& if i < e && v <= u64::MAX {
                    r.0 == Some(v as u64)
                } else {
                    r.0 == None::<u64>
                }
            }),
    {
        let len = self.bencode.len();
        let mut cur: usize = i;
        let mut acc: Option<u64> = Some(0);
        while cur < len && is_digit_char(self.bencode[cur])
            invariant
                i <= cur <= len,
                len == self.bencode.len(),
                digit_run_end(self.bencode@, i as int) == digit_run_end(
                    self.bencode@,
                    cur as int,
                ),
                match acc {
                    Some(a) => a == digits_val(self.bencode@.subrange(i as int, cur as int)),
                    None => digits_val(self.bencode@.subrange(i as int, cur as int))
                        > u64::MAX,
                },
            decreases len - cur,
        {
            let d: u64 = (self.bencode[cur] as u32 - 48) as u64;
            proof {
                assert(self.bencode@.subrange(i as int, cur + 1 as int) =~= self.bencode@
                    .subrange(i as int, cur as int).push(self.bencode@[cur as int]));
                lemma_digits_val_push(
                    self.bencode@.subrange(i as int, cur as int),
                    self.bencode@[cur as int],
                );
            }
            acc = match acc {
                Some(a) => if a > u64::MAX / 10 {
                    None
                } else {
                    let t = a * 10;
                    if d > u64::MAX - t {
                        None
                    } else {
                        Some(t + d)
                    }
                },
                None => None,
            };
            cur = cur + 1;
        }
        proof {
            lemma_digit_run_end(self.bencode@, i as int);
            let e = digit_run_end(self.bencode@, i as int);
            let run = self.bencode@.subrange(i as int, e);
            assert forall|k: int| 0 <= k < run.len() implies is_bdigit(run[k]) by {
                assert(run[k] == self.bencode@[i + k]);
            }
            lemma_digits_val_nonneg(run);
        }
        if cur == i {
            (None, cur)
        } else {
            (acc, cur)
        }
    }

    /// Demands `':'` at position `i` and steps past it; anything else,
    /// including the end of the input, is a malformed string literal.
    fn expecting_colon(&self, i: usize) -> (r: Result<usize, DecodeError>)
        requires
            i <= self.bencode.len(),
        ensures
            if i < self.bencode.len() && self.bencode@[i as int] == ':' {
                r == Ok::<usize, DecodeError>((i + 1) as usize)
            } else {
                r == Err::<usize, DecodeError>(DecodeError::MalformedString)
            },
    {
        if i < self.bencode.len() && self.bencode[i] == ':' {
            Ok(i + 1)
        } else {
            Err(DecodeError::MalformedString)
        }
    }

    /// Demands `'e'` at position `i` and steps past it; anything else,
    /// including the end of the input, is a malformed integer literal.
    fn expecting_e(&self, i: usize) -> (r: Result<usize, DecodeError>)
        requires
            i <= self.bencode.len(),
        ensures
            if i < self.bencode.len() && self.bencode@[i as int] == 'e' {
                r == Ok::<usize, DecodeError>((i + 1) as usize)
            } else {
                r == Err::<usize, DecodeError>(DecodeError::MalformedInteger)
            },
    {
        if i < self.bencode.len() && self.bencode[i] == 'e' {
            Ok(i + 1)
        } else {
            Err(DecodeError::MalformedInteger)
        }
    }

    /// Reads a string literal at position `i`: a digit run giving the
    /// length, `':'`, then exactly that many payload characters.
    fn parse_string(&self, i: usize) -> (r: Result<(Vec<char>, usize), DecodeError>)
        requires
            i <= self.bencode.len(),
        ensures
            ({
                let sp = spec_parse_string(self.bencode@, i as int);
                match r {
                    Ok((p, j)) => sp == Ok::<(Seq<char>, int), DecodeError>((p@, j as int))
                        && i < j <= self.bencode.len(),
                    Err(e) => sp == Err::<(Seq<char>, int), DecodeError>(e),
                }
            }),
    {
        let (num, e) = self.iter_until_not_integer_and_return_it(i);
        match num {
            None => Err(DecodeError::MalformedString),
            Some(n) => {
                let k = match self.expecting_colon(e) {
                    Ok(k) => k,
                    Err(er) => {
                        return Err(er);
                    },
                };
                let len = self.bencode.len();
                if n > (len - k) as u64 {
                    return Err(DecodeError::MalformedString);
                }
                let n_us = n as usize;
                let mut payload: Vec<char> = Vec::new();
                let mut t: usize = 0;
                while t < n_us
                    invariant
                        t <= n_us,
                        k + n_us <= self.bencode.len(),
                        payload@ == self.bencode@.subrange(k as int, (k + t) as int),
                    decreases n_us - t,
                {
                    payload.push(self.bencode[k + t]);
                    proof {
                        assert(self.bencode@.subrange(k as int, (k + t + 1) as int)
                            =~= self.bencode@.subrange(k as int, (k + t) as int).push(
                            self.bencode@[(k + t) as int],
                        ));
                    }
                    t = t + 1;
                }
                Ok((payload, k + n_us))
            },
        }
    }

    /// Reads an integer literal at position `i`, which holds `'i'`: a digit
    /// run between `'i'` and `'e'`.  A value beyond `i64::MAX` is rejected,
    /// never wrapped.
    fn parse_int(&self, i: usize) -> (r: Result<(i64, usize), DecodeError>)
        requires
            i < self.bencode.len(),
            self.bencode@[i as int] == 'i',
        ensures
            ({
                let sp = spec_parse_int(self.bencode@, i as int);
                match r {
                    Ok((n, j)) => sp == Ok::<(ValueSpec, int), DecodeError>(
                        (ValueSpec::Integer(n as int), j as int),
                    ) && i < j <= self.bencode.len(),
                    Err(e) => sp == Err::<(ValueSpec, int), DecodeError>(e),
                }
            }),
    {
        let (num, e) = self.iter_until_not_integer_and_return_it(i + 1);
        match num {
            None => Err(DecodeError::MalformedInteger),
            Some(n) => {
                if n > i64::MAX as u64 {
                    return Err(DecodeError::MalformedInteger);
                }
                match self.expecting_e(e) {
                    Ok(j) => Ok((n as i64, j)),
                    Err(er) => Err(er),
                }
            },
        }
    }

    /// Reads one value at position `i`, dispatching on the lookahead
    /// character, and returns it with the position just past it.  A
    /// position at or past the end of the input is out of bounds, and a
    /// lookahead that starts no value form is an unexpected token.
    fn parse_value(&self, i: usize) -> (r: Result<(Value, usize), DecodeError>)
        requires
            i <= self.bencode.len(),
        ensures
            ({
                let sp = spec_parse_value(self.bencode@, i as int);
                match r {
                    Ok((v, j)) => sp == Ok::<(ValueSpec, int), DecodeError>((v@, j as int))
                        && i < j <= self.bencode.len(),
                    Err(e) => sp == Err::<(ValueSpec, int), DecodeError>(e),
                }
            }),
        decreases self.bencode@.len() - i, 1int,
    {
        if i >= self.bencode.len() {
            return Err(DecodeError::OutOfBounds);
        }
        let c = self.bencode[i];
        if c == 'i' {
            match self.parse_int(i) {
                Ok((n, j)) => Ok((Value::Integer(n), j)),
                Err(e) => Err(e),
            }
        } else if is_digit_char(c) {
            match self.parse_string(i) {
                Ok((p, j)) => Ok((Value::ByteString(p), j)),
                Err(e) => Err(e),
            }
        } else if c == 'l' {
            self.parse_list(i)
        } else if c == 'd' {
            self.parse_dictionary(i)
        } else {
            Err(DecodeError::UnexpectedToken)
        }
    }

    /// Reads a list at position `i`, which holds `'l'`: element values
    /// follow until a closing `'e'`, and their order is preserved.
    fn parse_list(&self, i: usize) -> (r: Result<(Value, usize), DecodeError>)
        requires
            i < self.bencode.len(),
            self.bencode@[i as int] == 'l',
        ensures
            ({
                let sp = spec_parse_items(self.bencode@, i + 1 as int, Seq::empty());
                match r {
                    Ok((v, j)) => sp matches Ok(p) && v@ == ValueSpec::List(p.0) && p.1 == j
                        as int && i < j <= self.bencode.len(),
                    Err(e) => sp == Err::<(Seq<ValueSpec>, int), DecodeError>(e),
                }
            }),
        decreases self.bencode@.len() - i, 0int,
    {
        let ghost s = self.bencode@;
        let len = self.bencode.len();
        let mut items: Vec<Value> = Vec::new();
        let mut cur: usize = i + 1;
        proof {
            assert(values_view(items@) =~= Seq::empty());
        }
        loop
            invariant
                i < cur <= len,
                len == self.bencode.len(),
                s == self.bencode@,
                spec_parse_items(s, i + 1, Seq::empty()) == spec_parse_items(
                    s,
                    cur as int,
                    values_view(items@),
                ),
            decreases len - cur,
        {
            if cur >= len {
                return Err(DecodeError::UnterminatedAggregate);
            }
            if self.bencode[cur] == 'e' {
                return Ok((Value::List(items), cur + 1));
            }
            match self.parse_value(cur) {
                Ok((v, j)) => {
                    proof {
                        assert(values_view(items@.push(v)) =~= values_view(items@).push(v@));
                    }
                    items.push(v);
                    cur = j;
                },
                Err(e) => {
                    return Err(e);
                },
            }
        }
    }

    /// Reads a dictionary at position `i`, which holds `'d'`: key-value
    /// pairs follow until a closing `'e'`.  Every key must be a string
    /// literal; a duplicate key overwrites the earlier value, so the last
    /// occurrence wins.
    fn parse_dictionary(&self, i: usize) -> (r: Result<(Value, usize), DecodeError>)
        requires
            i < self.bencode.len(),
            self.bencode@[i as int] == 'd',
        ensures
            ({
                let sp = spec_parse_entries(self.bencode@, i + 1 as int, Seq::empty());
                match r {
                    Ok((v, j)) => sp matches Ok(p) && v@ == ValueSpec::Dictionary(p.0) && p.1
                        == j as int && i < j <= self.bencode.len(),
                    Err(e) => sp == Err::<(Seq<(Seq<char>, ValueSpec)>, int), DecodeError>(e),
                }
            }),
        decreases self.bencode@.len() - i, 0int,
    {
        let ghost s = self.bencode@;
        let len = self.bencode.len();
        let mut entries: Vec<(Vec<char>, Value)> = Vec::new();
        let mut cur: usize = i + 1;
        proof {
            assert(entries_view(entries@) =~= Seq::empty());
        }
        loop
            invariant
                i < cur <= len,
                len == self.bencode.len(),
                s == self.bencode@,
                spec_parse_entries(s, i + 1, Seq::empty()) == spec_parse_entries(
                    s,
                    cur as int,
                    entries_view(entries@),
                ),
            decreases len - cur,
        {
            if cur >= len {
                return Err(DecodeError::UnterminatedAggregate);
            }
            let c = self.bencode[cur];
            if c == 'e' {
                return Ok((Value::Dictionary(entries), cur + 1));
            }
            if !is_digit_char(c) {
                return Err(DecodeError::ExpectedStringKey);
            }
            let (key, j) = match self.parse_string(cur) {
                Ok(kj) => kj,
                Err(e) => {
                    return Err(e);
                },
            };
            let (val, m) = match self.parse_value(j) {
                Ok(vm) => vm,
                Err(e) => {
                    return Err(e);
                },
            };
            let ghost e_before = entries_view(entries@);
            dict_update(&mut entries, key, val);
            proof {
                assert(spec_parse_entries(s, cur as int, e_before) == spec_parse_entries(
                    s,
                    m as int,
                    entries_view(entries@),
                ));
            }
            cur = m;
        }
    }
}

} // verus!
