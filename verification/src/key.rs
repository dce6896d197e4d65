//! Node identifiers and their textual form.

use vstd::prelude::*;
use vstd::std_specs::iter::IteratorSpec;

verus! {

/// Identifier of a node. The engine hands keys out and reads them back
/// from their text; a key is no more than its identifier.
#[derive(Debug, Clone, Copy, PartialEq, Eq, Structural, Hash)]
pub struct Key(u64);

impl View for Key {
    type V = u64;

    closed spec fn view(&self) -> u64 {
        self.0
    }
}

/// The text handed to [`Key::parse`] does not name a key.
#[derive(Debug, Clone, Copy, PartialEq, Eq, Structural)]
pub struct KeyParseError;

/// `c` is one of the ten decimal digits.
pub open spec fn is_digit(c: char) -> bool {
    '0' <= c && c <= '9'
}

/// The number a decimal digit stands for; `0` for any other character.
pub open spec fn digit_value(c: char) -> nat {
    if is_digit(c) {
        (c as u32 - '0' as u32) as nat
    } else {
        0
    }
}

/// The decimal digit that stands for `d`, for `d < 10`.
pub open spec fn digit_char(d: nat) -> char {
    if d == 0 {
        '0'
    } else if d == 1 {
        '1'
    } else if d == 2 {
        '2'
    } else if d == 3 {
        '3'
    } else if d == 4 {
        '4'
    } else if d == 5 {
        '5'
    } else if d == 6 {
        '6'
    } else if d == 7 {
        '7'
    } else if d == 8 {
        '8'
    } else {
        '9'
    }
}

/// Every character of `s` is a decimal digit.
pub open spec fn all_digits(s: Seq<char>) -> bool {
    forall|i: int| 0 <= i < s.len() ==> is_digit(#[trigger] s[i])
}

/// The number that the digits of `s` spell, most significant digit first.
pub open spec fn decimal_value(s: Seq<char>) -> nat
    decreases s.len(),
{
    if s.len() == 0 {
        0
    } else {
        decimal_value(s.drop_last()) * 10 + digit_value(s.last())
    }
}

/// The shortest decimal spelling of `n`.
pub open spec fn decimal_text(n: nat) -> Seq<char>
    decreases n,
{
    if n < 10 {
        seq![digit_char(n)]
    } else {
        decimal_text(n / 10).push(digit_char(n % 10))
    }
}

/// The identifier of the key for a reading of the clock: the nanoseconds
/// since the Unix epoch, where there is a reading and it is not negative.
pub open spec fn timestamp_id(nanos: Option<i64>) -> Option<u64> {
    match nanos {
        Some(n) => if n >= 0 {
            Some(n as u64)
        } else {
            None
        },
        None => None,
    }
}

/// The displayed form of the key with identifier `id`: the shortest
/// decimal spelling of `id`.
pub open spec fn key_text(id: u64) -> Seq<char> {
    decimal_text(id as nat)
}

/// The digits of a number text: the text without its one leading `+`, if
/// it has one.
pub open spec fn number_part(s: Seq<char>) -> Seq<char> {
    if s.len() > 0 && s[0] == '+' {
        s.subrange(1, s.len() as int)
    } else {
        s
    }
}

/// The identifier that the text `s` names, if it names one: `s` is a
/// decimal integer from 0 to the greatest 64-bit number, made of digits
/// alone but for one `+` that may lead them.
pub open spec fn parsed(s: Seq<char>) -> Option<u64> {
    let digits = number_part(s);
    if digits.len() > 0 && all_digits(digits) && decimal_value(digits) <= u64::MAX {
        Some(decimal_value(digits) as u64)
    } else {
        None
    }
}

/// A prefix of a text spells no more than the whole text.
pub proof fn lemma_decimal_value_prefix(s: Seq<char>, n: int)
    requires
        0 <= n <= s.len(),
    ensures
        decimal_value(s.take(n)) <= decimal_value(s),
    decreases s.len() - n,
{
    if n < s.len() {
        lemma_decimal_value_prefix(s, n + 1);
        assert(s.take(n + 1).drop_last() == s.take(n));
    } else {
        assert(s.take(n) == s);
    }
}

/// The decimal spelling of a number is made of digits and spells that
/// number.
pub proof fn lemma_decimal_text_value(n: nat)
    ensures
        decimal_text(n).len() > 0,
        all_digits(decimal_text(n)),
        decimal_value(decimal_text(n)) == n,
    decreases n,
{
    if n < 10 {
        let t = decimal_text(n);
        assert(t.drop_last().len() == 0);
        assert(decimal_value(t) == decimal_value(t.drop_last()) * 10 + digit_value(t.last()));
    } else {
        lemma_decimal_text_value(n / 10);
        let t = decimal_text(n);
        assert(t.drop_last() == decimal_text(n / 10));
        assert(t.last() == digit_char(n % 10));
    }
}

/// A displayed key is read back as the key it displays.
pub proof fn lemma_parse_inverts_display(id: u64)
    ensures
        parsed(key_text(id)) == Some(id),
{
    let text = key_text(id);
    lemma_decimal_text_value(id as nat);
    assert(is_digit(text[0]));
    assert(number_part(text) == text);
}

/// Two texts name the same key exactly where they spell the same number.
pub proof fn lemma_parsed_same_number(a: Seq<char>, b: Seq<char>)
    requires
        parsed(a) is Some,
        parsed(b) is Some,
    ensures
        parsed(a) == parsed(b) <==> decimal_value(number_part(a)) == decimal_value(number_part(b)),
{
}

/// The characters of `s`, in order.
fn chars_of(s: &str) -> (res: Vec<char>)
    ensures
        res@ == s@,
{
    broadcast use vstd::string::group_string_axioms;

    let mut out: Vec<char> = Vec::new();
    for c in it: s.chars()
        invariant
            it.seq() == s@,
            out@ == s@.take(it.index()),
    {
        out.push(c);
    }
    assert(out@ == s@);
    out
}

/// The one-character text of a decimal digit.
fn digit_str(d: u64) -> (res: &'static str)
    requires
        d < 10,
    ensures
        res@ == seq![digit_char(d as nat)],
{
    proof {
        reveal_strlit("0");
        reveal_strlit("1");
        reveal_strlit("2");
        reveal_strlit("3");
        reveal_strlit("4");
        reveal_strlit("5");
        reveal_strlit("6");
        reveal_strlit("7");
        reveal_strlit("8");
        reveal_strlit("9");
    }
    let res = if d == 0 {
        "0"
    } else if d == 1 {
        "1"
    } else if d == 2 {
        "2"
    } else if d == 3 {
        "3"
    } else if d == 4 {
        "4"
    } else if d == 5 {
        "5"
    } else if d == 6 {
        "6"
    } else if d == 7 {
        "7"
    } else if d == 8 {
        "8"
    } else {
        "9"
    };
    assert(res@ =~= seq![digit_char(d as nat)]);
    res
}

/// Appends the decimal spelling of `n` to `out`.
fn push_decimal(out: &mut String, n: u64)
    ensures
        final(out)@ == old(out)@ + decimal_text(n as nat),
    decreases n,
{
    if n >= 10 {
        push_decimal(out, n / 10);
    }
    out.append(digit_str(n % 10));
}

/// Reads the time that a key is generated from.
///
/// Takes `std::time::SystemTime::now()`, turns it into a `DateTime<Utc>`
/// with chrono's `From<SystemTime>`, and calls
/// `DateTime::timestamp_nanos_opt` on that: nanoseconds since the Unix
/// epoch, negative for a time before it, or `None` where they do not fit
/// 64 bits. Nothing is claimed of the value. The conversion asks only that
/// the time lies within the years that chrono can hold, some 262 000 to
/// either side of the epoch.
#[verifier::external_body]
pub(crate) fn clock_nanos() -> (res: Option<i64>) {
    chrono::DateTime::<chrono::Utc>::from(std::time::SystemTime::now()).timestamp_nanos_opt()
}

impl Key {
    /// Two keys are the same key where their identifiers are the same.
    pub proof fn lemma_view_injective(a: Key, b: Key)
        ensures
            (a@ == b@) <==> a == b,
    {
    }

    /// The key with the given identifier.
    pub(crate) fn from_id(id: u64) -> (res: Key)
        ensures
            res@ == id,
    {
        Key(id)
    }

    /// The identifier of the key.
    pub(crate) fn id(&self) -> (res: u64)
        ensures
            res == self@,
    {
        self.0
    }

    /// The key for a reading of the clock, in nanoseconds since the Unix
    /// epoch. There is none where the clock gave no reading, and none for
    /// a time before the epoch.
    pub fn from_timestamp(nanos: Option<i64>) -> (res: Option<Key>)
        ensures
            match timestamp_id(nanos) {
                Some(id) => (res matches Some(key) && key@ == id),
                None => res is None,
            },
    {
        match nanos {
            Some(n) => {
                if n >= 0 {
                    Some(Key(n as u64))
                } else {
                    None
                }
            },
            None => None,
        }
    }

    /// A key made from the current time, at nanosecond resolution. `None`
    /// where the clock reads a time that no key stands for.
    pub fn generate() -> (res: Option<Key>)
        ensures
            res matches Some(key) ==> key@ <= i64::MAX,
    {
        Key::from_timestamp(clock_nanos())
    }

    /// Reads a key from text: a decimal integer, as [`Key::to_string`]
    /// writes it. Any other text is refused: an empty one, one with a `-`,
    /// with a character that is no digit, with a blank, or with a number
    /// too large for 64 bits.
    pub fn parse(key: &str) -> (res: Result<Key, KeyParseError>)
        ensures
            match parsed(key@) {
                Some(id) => (res matches Ok(k) && k@ == id),
                None => res is Err,
            },
    {
        let chars = chars_of(key);
        let n = chars.len();
        let end: usize = n;
        let start: usize = if n > 0 && chars[0] == '+' { 1 } else { 0 };
        let ghost digits = number_part(key@);
        assert(digits == key@.subrange(start as int, end as int));
        if start >= end {
            return Err(KeyParseError);
        }
        let mut id: u64 = 0;
        let mut i: usize = start;
        while i < end
            invariant
                start <= i <= end <= n,
                n == chars@.len(),
                chars@ == key@,
                digits == number_part(key@),
                digits == key@.subrange(start as int, end as int),
                all_digits(digits.take(i - start)),
                id == decimal_value(digits.take(i - start)),
            decreases end - i,
        {
            let c = chars[i];
            assert(c == digits[i - start]);
            if !('0' <= c && c <= '9') {
                assert(!is_digit(digits[i - start]));
                return Err(KeyParseError);
            }
            let d: u64 = (c as u32 - '0' as u32) as u64;
            proof {
                let next = digits.take(i - start + 1);
                assert(next.drop_last() == digits.take(i - start));
                assert(next.last() == c);
                assert(decimal_value(next) == id * 10 + d);
                lemma_decimal_value_prefix(digits, i - start + 1);
                assert forall|j: int| 0 <= j < next.len() implies is_digit(#[trigger] next[j]) by {
                    if j < next.len() - 1 {
                        assert(next[j] == digits.take(i - start)[j]);
                    }
                }
            }
            if id > (u64::MAX - d) / 10 {
                return Err(KeyParseError);
            }
            id = id * 10 + d;
            i = i + 1;
        }
        assert(digits.take(end - start) == digits);
        Ok(Key(id))
    }

    /// The displayed form of the key, which [`Key::parse`] reads back: its
    /// identifier in decimal digits.
    pub fn to_string(&self) -> (res: String)
        ensures
            res@ == key_text(self@),
    {
        let mut out = String::new();
        push_decimal(&mut out, self.0);
        assert(out@ =~= key_text(self@));
        out
    }
}

impl KeyParseError {
    /// What went wrong, in words.
    pub fn to_string(&self) -> (res: String)
        ensures
            res@ == "invalid key"@,
    {
        "invalid key".to_owned()
    }
}

} // verus!
