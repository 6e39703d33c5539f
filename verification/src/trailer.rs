//! Trailers: the `Key: value` lines at the end of a message, and the typed
//! values they carry.

use vstd::prelude::*;
use vstd::slice::slice_subrange;
use crate::error::Error;
use crate::seqs::{leading, lemma_leading_at};
use crate::text::{chars_of, string_of};

verus! {

/// The value of a trailer: a number where the text is a decimal number that
/// fits, a text otherwise.
#[derive(Clone, Debug, PartialEq, Eq)]
pub enum TrailerValue {
    Int(i64),
    String(String),
}

/// What a `TrailerValue` stands for.
pub enum ValueView {
    Int(i64),
    Text(Seq<char>),
}

impl View for TrailerValue {
    type V = ValueView;

    open spec fn view(&self) -> ValueView {
        match self {
            TrailerValue::Int(i) => ValueView::Int(*i),
            TrailerValue::String(s) => ValueView::Text(s@),
        }
    }
}

/// A trailer: a key and its value.
#[derive(Clone, Debug, PartialEq, Eq)]
pub struct Trailer {
    pub key: String,
    pub value: TrailerValue,
}

/// What a `Trailer` stands for.
pub struct TrailerView {
    pub key: Seq<char>,
    pub value: ValueView,
}

impl View for Trailer {
    type V = TrailerView;

    open spec fn view(&self) -> TrailerView {
        TrailerView { key: self.key@, value: self.value@ }
    }
}

/// The views of a sequence of trailers.
pub open spec fn trailer_views(v: Seq<Trailer>) -> Seq<TrailerView> {
    Seq::new(v.len(), |i: int| v[i]@)
}

/// The views of a sequence of values.
pub open spec fn value_views(v: Seq<TrailerValue>) -> Seq<ValueView> {
    Seq::new(v.len(), |i: int| v[i]@)
}

/// The shape of the value that a trailer is expected to have.
#[derive(Clone, Copy, Debug, PartialEq, Eq, Structural)]
pub enum ValueType {
    String,
    Int,
}

/// The description of an expected trailer: its key and the shape of its
/// value.
#[derive(Clone, Debug, PartialEq, Eq)]
pub struct TrailerSpec {
    pub key: String,
    pub value_type: ValueType,
}

/// The key of the trailer that holds the status of an issue.
pub open spec fn issue_status_key() -> Seq<char> {
    seq!['I', 's', 's', 'u', 'e', '-', 's', 't', 'a', 't', 'u', 's']
}

/// The key of the trailer that holds the type of an issue.
pub open spec fn issue_type_key() -> Seq<char> {
    seq!['I', 's', 's', 'u', 'e', '-', 't', 'y', 'p', 'e']
}

impl TrailerSpec {
    /// The trailer `Issue-status`, a text.
    pub fn issue_status() -> (r: TrailerSpec)
        ensures
            r.key@ == issue_status_key(),
            r.value_type == ValueType::String,
    {
        proof {
            reveal_strlit("Issue-status");
            assert("Issue-status"@ =~= issue_status_key());
        }
        TrailerSpec { key: "Issue-status".to_owned(), value_type: ValueType::String }
    }

    /// The trailer `Issue-type`, a text.
    pub fn issue_type() -> (r: TrailerSpec)
        ensures
            r.key@ == issue_type_key(),
            r.value_type == ValueType::String,
    {
        proof {
            reveal_strlit("Issue-type");
            assert("Issue-type"@ =~= issue_type_key());
        }
        TrailerSpec { key: "Issue-type".to_owned(), value_type: ValueType::String }
    }

    /// A copy of this description.
    pub fn copy(&self) -> (r: TrailerSpec)
        ensures
            r.key@ == self.key@,
            r.value_type == self.value_type,
    {
        TrailerSpec { key: self.key.clone(), value_type: self.value_type }
    }
}

// ---------------------------------------------------------------------
// Numbers

/// A decimal digit.
pub open spec fn is_digit(c: char) -> bool {
    48 <= c as u32 <= 57
}

/// The number that a digit stands for.
pub open spec fn digit_value(c: char) -> int {
    c as u32 - 48
}

/// The digit that stands for `d`, a number below ten.
pub open spec fn digit_char(d: int) -> char {
    ((d + 48) as u8) as char
}

/// Whether every character of `s` is a digit.
pub open spec fn all_digits(s: Seq<char>) -> bool {
    forall|i: int| 0 <= i < s.len() ==> is_digit(#[trigger] s[i])
}

/// The number that a run of digits stands for, read as a decimal.
pub open spec fn digits_value(s: Seq<char>) -> int
    decreases s.len(),
{
    if s.len() == 0 {
        0
    } else {
        digits_value(s.drop_last()) * 10 + digit_value(s.last())
    }
}

/// The length of the sign that `s` starts with: one for `-` or `+`, zero
/// otherwise.
pub open spec fn sign_len(s: Seq<char>) -> int {
    if s.len() > 0 && (s[0] == '-' || s[0] == '+') {
        1
    } else {
        0
    }
}

/// Whether `s` starts with `-`.
pub open spec fn is_negative_text(s: Seq<char>) -> bool {
    s.len() > 0 && s[0] == '-'
}

/// The number that the digits behind the sign stand for.
pub open spec fn magnitude(s: Seq<char>) -> int {
    digits_value(s.skip(sign_len(s)))
}

/// Whether `s` is a signed decimal number of 64 bits: an optional sign, then
/// one digit or more and nothing else, with a value in the range of `i64`.
pub open spec fn is_int_text(s: Seq<char>) -> bool {
    let d = s.skip(sign_len(s));
    &&& d.len() > 0
    &&& all_digits(d)
    &&& if is_negative_text(s) {
        magnitude(s) <= 0x8000_0000_0000_0000
    } else {
        magnitude(s) <= 0x7fff_ffff_ffff_ffff
    }
}

/// The number that such a text stands for.
pub open spec fn int_of_text(s: Seq<char>) -> int {
    if is_negative_text(s) {
        -magnitude(s)
    } else {
        magnitude(s)
    }
}

/// The decimal digits of `n`, without leading zeros.
pub open spec fn decimal(n: nat) -> Seq<char>
    decreases n,
{
    if n < 10 {
        seq![digit_char(n as int)]
    } else {
        decimal(n / 10).push(digit_char((n % 10) as int))
    }
}

/// The decimal text of `i`: a `-` in front of the digits where it is
/// negative.
pub open spec fn int_text(i: int) -> Seq<char> {
    if i < 0 {
        seq!['-'] + decimal((-i) as nat)
    } else {
        decimal(i as nat)
    }
}

/// The digits of a number stand for that number.
pub proof fn lemma_decimal(n: nat)
    ensures
        decimal(n).len() > 0,
        all_digits(decimal(n)),
        digits_value(decimal(n)) == n,
    decreases n,
{
    if n < 10 {
        let s = seq![digit_char(n as int)];
        assert(s.drop_last() =~= Seq::<char>::empty());
        assert(digits_value(s.drop_last()) == 0);
        assert(s.last() == digit_char(n as int));
    } else {
        lemma_decimal(n / 10);
        let p = decimal(n / 10);
        let s = p.push(digit_char((n % 10) as int));
        assert(s.drop_last() =~= p);
        assert(s.last() == digit_char((n % 10) as int));
        assert forall|i: int| 0 <= i < s.len() implies is_digit(#[trigger] s[i]) by {
            if i < p.len() {
                assert(s[i] == p[i]);
            }
        }
    }
}

/// The decimal text of a 64-bit number is read back as that number.
pub proof fn lemma_int_round_trip(i: i64)
    ensures
        is_int_text(int_text(i as int)),
        int_of_text(int_text(i as int)) == i,
{
    if i < 0 {
        let n = (-(i as int)) as nat;
        lemma_decimal(n);
        let s = int_text(i as int);
        assert(s[0] == '-');
        assert(s.skip(1) =~= decimal(n));
    } else {
        let n = i as nat;
        lemma_decimal(n);
        let s = int_text(i as int);
        assert(is_digit(s[0]));
        assert(s.skip(0) =~= s);
    }
}

/// Reading more digits never gives a smaller number.
pub proof fn lemma_digits_value_prefix(s: Seq<char>, k: int)
    requires
        all_digits(s),
        0 <= k <= s.len(),
    ensures
        0 <= digits_value(s.take(k)) <= digits_value(s),
    decreases s.len() - k,
{
    if k == s.len() {
        assert(s.take(k) =~= s);
        lemma_digits_value_nonneg(s);
    } else {
        let t = s.drop_last();
        assert(all_digits(t)) by {
            assert forall|i: int| 0 <= i < t.len() implies is_digit(#[trigger] t[i]) by {
                assert(t[i] == s[i]);
            }
        }
        lemma_digits_value_prefix(t, k);
        assert(t.take(k) =~= s.take(k));
        assert(is_digit(s.last()));
    }
}

/// A run of digits stands for a number that is not negative.
pub proof fn lemma_digits_value_nonneg(s: Seq<char>)
    requires
        all_digits(s),
    ensures
        0 <= digits_value(s),
    decreases s.len(),
{
    if s.len() > 0 {
        let t = s.drop_last();
        assert forall|i: int| 0 <= i < t.len() implies is_digit(#[trigger] t[i]) by {
            assert(t[i] == s[i]);
        }
        lemma_digits_value_nonneg(t);
        assert(is_digit(s.last()));
    }
}

/// Whether `c` is a decimal digit.
fn is_digit_char(c: char) -> (r: bool)
    ensures
        r == is_digit(c),
{
    let u: u32 = c as u32;
    48 <= u && u <= 57
}

/// The digit that stands for `d`.
fn digit_of(d: u64) -> (c: char)
    requires
        d < 10,
    ensures
        c == digit_char(d as int),
{
    ((d as u8) + 48) as char
}

/// Appends the decimal digits of `n`.
fn push_decimal(out: &mut Vec<char>, n: u64)
    ensures
        final(out)@ == old(out)@ + decimal(n as nat),
    decreases n,
{
    if n >= 10 {
        push_decimal(out, n / 10);
    }
    out.push(digit_of(n % 10));
    proof {
        if n >= 10 {
            assert(final(out)@ =~= old(out)@ + decimal(n as nat));
        } else {
            assert(final(out)@ =~= old(out)@ + decimal(n as nat));
        }
    }
}

/// The decimal text of `i`.
pub fn int_chars(i: i64) -> (out: Vec<char>)
    ensures
        out@ == int_text(i as int),
{
    let mut out: Vec<char> = Vec::new();
    if i < 0 {
        out.push('-');
        let m: u64 = if i == i64::MIN {
            0x8000_0000_0000_0000
        } else {
            (-i) as u64
        };
        push_decimal(&mut out, m);
    } else {
        push_decimal(&mut out, i as u64);
    }
    proof {
        assert(out@ =~= int_text(i as int));
    }
    out
}

/// The number that `v` stands for, if it is the text of one.
pub fn int_of_chars(v: &[char]) -> (r: Option<i64>)
    ensures
        r is Some <==> is_int_text(v@),
        r is Some ==> r.unwrap() as int == int_of_text(v@),
{
    let n = v.len();
    if n == 0 {
        return None;
    }
    let neg = v[0] == '-';
    let start: usize = if v[0] == '-' || v[0] == '+' {
        1
    } else {
        0
    };
    if start == n {
        return None;
    }
    let limit: u64 = if neg {
        0x8000_0000_0000_0000
    } else {
        0x7fff_ffff_ffff_ffff
    };
    let ghost d = v@.skip(start as int);
    let mut acc: u64 = 0;
    let mut i: usize = start;
    proof {
        assert(d.take(0) =~= Seq::<char>::empty());
    }
    while i < n
        invariant
            start <= i <= n,
            n == v.len(),
            d == v@.skip(start as int),
            forall|j: int| 0 <= j < i - start ==> is_digit(#[trigger] d[j]),
            acc as int == digits_value(d.take(i - start)),
            acc <= limit,
            start == sign_len(v@),
            neg == is_negative_text(v@),
            limit == if neg { 0x8000_0000_0000_0000u64 } else { 0x7fff_ffff_ffff_ffffu64 },
        decreases n - i,
    {
        let c = v[i];
        assert(d[i - start] == c);
        if !is_digit_char(c) {
            return None;
        }
        let cu: u32 = c as u32;
        let dv: u64 = (cu - 48) as u64;
        proof {
            let p = d.take(i - start + 1);
            assert(p.drop_last() =~= d.take(i - start));
            assert(p.last() == c);
            assert(digits_value(p) == acc * 10 + dv);
        }
        if acc > (limit - dv) / 10 {
            proof {
                if all_digits(d) {
                    lemma_digits_value_prefix(d, i - start + 1);
                }
            }
            return None;
        }
        acc = acc * 10 + dv;
        i += 1;
    }
    proof {
        assert(d.take(i - start) =~= d);
    }
    if neg {
        if acc == 0x8000_0000_0000_0000 {
            Some(i64::MIN)
        } else {
            Some(-(acc as i64))
        }
    } else {
        Some(acc as i64)
    }
}

// ---------------------------------------------------------------------
// Values

/// The value that a text stands for: a number where the text is that of one,
/// the text itself otherwise.
pub open spec fn value_of_text(s: Seq<char>) -> ValueView {
    if is_int_text(s) {
        ValueView::Int(int_of_text(s) as i64)
    } else {
        ValueView::Text(s)
    }
}

/// The text of a value: the decimal text of a number, a text as it is.
pub open spec fn value_text(v: ValueView) -> Seq<char> {
    match v {
        ValueView::Int(i) => int_text(i as int),
        ValueView::Text(s) => s,
    }
}

/// A value is canonical when reading its text gives it back: every number
/// is, and every text that is not the text of a number.
pub open spec fn canonical_value(v: ValueView) -> bool {
    match v {
        ValueView::Int(_) => true,
        ValueView::Text(s) => !is_int_text(s),
    }
}

/// Reading the text of a canonical value gives the value back.
pub proof fn lemma_value_round_trip(v: ValueView)
    requires
        canonical_value(v),
    ensures
        value_of_text(value_text(v)) == v,
{
    match v {
        ValueView::Int(i) => {
            lemma_int_round_trip(i);
        },
        ValueView::Text(s) => {},
    }
}

/// The value that the text `v` stands for.
fn value_of_chars(v: &[char]) -> (r: TrailerValue)
    ensures
        r@ == value_of_text(v@),
{
    match int_of_chars(v) {
        Some(i) => TrailerValue::Int(i),
        None => TrailerValue::String(string_of(v)),
    }
}

impl TrailerValue {
    /// Reads a value: a number where `s` is a signed decimal number that
    /// fits in 64 bits, with no white space around it, the text otherwise.
    pub fn from_slice(s: &str) -> (r: TrailerValue)
        ensures
            r@ == value_of_text(s@),
    {
        let v = chars_of(s);
        value_of_chars(v.as_slice())
    }

    /// The text of this value.
    pub fn to_string(&self) -> (r: String)
        ensures
            r@ == value_text(self@),
    {
        match self {
            TrailerValue::Int(i) => {
                let v = int_chars(*i);
                string_of(v.as_slice())
            },
            TrailerValue::String(s) => s.clone(),
        }
    }

    /// A copy of this value.
    pub fn copy(&self) -> (r: TrailerValue)
        ensures
            r@ == self@,
    {
        match self {
            TrailerValue::Int(i) => TrailerValue::Int(*i),
            TrailerValue::String(s) => TrailerValue::String(s.clone()),
        }
    }

    /// Whether the two values are the same.
    pub fn same(&self, other: &TrailerValue) -> (r: bool)
        ensures
            r == (self@ == other@),
    {
        match (self, other) {
            (TrailerValue::Int(a), TrailerValue::Int(b)) => *a == *b,
            (TrailerValue::String(a), TrailerValue::String(b)) => *a == *b,
            _ => false,
        }
    }
}

// ---------------------------------------------------------------------
// Trailer lines

/// A character of a key: a letter, a digit or a hyphen.
pub open spec fn is_key_char(c: char) -> bool {
    let u = c as u32;
    (65 <= u <= 90) || (97 <= u <= 122) || (48 <= u <= 57) || u == 45
}

/// The test for characters of a key, as a value.
pub open spec fn key_char() -> spec_fn(char) -> bool {
    |c: char| is_key_char(c)
}

/// The number of key characters that `s` starts with.
pub open spec fn key_len(s: Seq<char>) -> nat {
    leading(s, key_char())
}

/// Whether `s` is a key: one key character or more and nothing else.
pub open spec fn is_key(s: Seq<char>) -> bool {
    s.len() > 0 && forall|i: int| 0 <= i < s.len() ==> is_key_char(#[trigger] s[i])
}

/// Whether a line has the shape of a trailer: a key, a colon, a blank, and
/// then the value, which runs to the end of the line.
pub open spec fn is_trailer_line(s: Seq<char>) -> bool {
    let k = key_len(s) as int;
    k > 0 && s.len() >= k + 2 && s[k] == ':' && s[k + 1] == ' '
}

/// The trailer that a line of that shape holds: the key is what stands
/// before the first colon, the value what follows the blank behind it.
pub open spec fn trailer_of_line(s: Seq<char>) -> TrailerView {
    let k = key_len(s) as int;
    TrailerView { key: s.take(k), value: value_of_text(s.skip(k + 2)) }
}

/// The line of a trailer: key, colon, blank, value.
pub open spec fn trailer_line(t: TrailerView) -> Seq<char> {
    t.key + seq![':', ' '] + value_text(t.value)
}

/// A trailer is canonical when reading its line gives it back: its key is a
/// key and its value is canonical.
pub open spec fn canonical_trailer(t: TrailerView) -> bool {
    is_key(t.key) && canonical_value(t.value)
}

/// The line of a canonical trailer has the shape of a trailer and holds that
/// trailer.
pub proof fn lemma_trailer_round_trip(t: TrailerView)
    requires
        canonical_trailer(t),
    ensures
        is_trailer_line(trailer_line(t)),
        trailer_of_line(trailer_line(t)) == t,
{
    let s = trailer_line(t);
    let k = t.key.len() as int;
    assert forall|j: int| 0 <= j < k implies key_char()(#[trigger] s[j]) by {
        assert(s[j] == t.key[j]);
    }
    assert(s[k] == ':');
    assert(s[k + 1] == ' ');
    lemma_leading_at(s, key_char(), k);
    assert(s.take(k) =~= t.key);
    assert(s.skip(k + 2) =~= value_text(t.value));
    lemma_value_round_trip(t.value);
}

/// Whether `c` is a character of a key.
fn is_key_char_exec(c: char) -> (r: bool)
    ensures
        r == is_key_char(c),
{
    let u: u32 = c as u32;
    (65 <= u && u <= 90) || (97 <= u && u <= 122) || (48 <= u && u <= 57) || u == 45
}

/// The number of key characters that `v` starts with.
pub fn key_length(v: &[char]) -> (k: usize)
    ensures
        k == key_len(v@),
        k <= v.len(),
{
    let mut k: usize = 0;
    while k < v.len() && is_key_char_exec(v[k])
        invariant
            k <= v.len(),
            forall|j: int| 0 <= j < k ==> key_char()(#[trigger] v@[j]),
        decreases v.len() - k,
    {
        k += 1;
    }
    proof {
        lemma_leading_at(v@, key_char(), k as int);
    }
    k
}

/// Whether the line `v` has the shape of a trailer.
pub fn trailer_shaped(v: &[char]) -> (r: bool)
    ensures
        r == is_trailer_line(v@),
{
    let k = key_length(v);
    k > 0 && v.len() - k >= 2 && v[k] == ':' && v[k + 1] == ' '
}

/// The trailer that the line `v` holds.
pub fn trailer_of_chars(v: &[char]) -> (r: Trailer)
    requires
        is_trailer_line(v@),
    ensures
        r@ == trailer_of_line(v@),
{
    let k = key_length(v);
    let key = string_of(slice_subrange(v, 0, k));
    let value = value_of_chars(slice_subrange(v, k + 2, v.len()));
    Trailer { key, value }
}

impl Trailer {
    /// Reads a trailer from a line of the form `Key: value`. A line of
    /// another form is refused, and the error carries it.
    pub fn from_str(s: &str) -> (r: Result<Trailer, Error>)
        ensures
            is_trailer_line(s@) ==> r is Ok && r->Ok_0@ == trailer_of_line(s@),
            !is_trailer_line(s@) ==> (r matches Err(Error::MalformedTrailer(t)) && t@ == s@),
    {
        let v = chars_of(s);
        if trailer_shaped(v.as_slice()) {
            Ok(trailer_of_chars(v.as_slice()))
        } else {
            Err(Error::MalformedTrailer(s.to_owned()))
        }
    }

    /// The line of this trailer: key, colon, blank, value.
    pub fn to_string(&self) -> (r: String)
        ensures
            r@ == trailer_line(self@),
    {
        let mut v = chars_of(self.key.as_str());
        v.push(':');
        v.push(' ');
        let value = self.value.to_string();
        let mut w = chars_of(value.as_str());
        v.append(&mut w);
        proof {
            assert(v@ =~= trailer_line(self@));
        }
        string_of(v.as_slice())
    }

    /// A copy of this trailer.
    pub fn copy(&self) -> (r: Trailer)
        ensures
            r@ == self@,
    {
        Trailer { key: self.key.clone(), value: self.value.copy() }
    }
}

} // verus!
