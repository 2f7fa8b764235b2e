//! The three-component version tag.
//!
//! A version is three unsigned 8-bit integers. Its binary form is the
//! three bytes in order; its textual form joins the components' decimal
//! numerals with dots. Parsing accepts exactly three dot-separated
//! parts, each a decimal numeral (with an optional leading '+') whose
//! value fits in 8 bits.

use vstd::prelude::*;
use vstd::string::StrSliceExecFns;
use vstd::string::StringExecFns;
use vstd::utf8::encode_utf8;
use vstd::utf8::encode_utf8_decode_utf8;
use vstd::utf8::encode_utf8_valid_utf8;
use vstd::utf8::is_ascii_chars;
use vstd::utf8::is_ascii_chars_encode_utf8;
use vstd::utf8::valid_utf8;

use crate::error::ProtocolError;
use crate::text::string_from_utf8;

verus! {

/// Index of the first '.' in `s`, or `s.len()` when there is none.
pub open spec fn find_dot(s: Seq<char>) -> int
    decreases s.len(),
{
    if s.len() == 0 {
        0
    } else if s[0] == '.' {
        0
    } else {
        1 + find_dot(s.drop_first())
    }
}

/// `find_dot` lies in bounds, points at a dot when one exists, and no
/// dot precedes it.
pub proof fn lemma_find_dot_bounds(s: Seq<char>)
    ensures
        0 <= find_dot(s) <= s.len(),
        forall|k: int| 0 <= k < find_dot(s) ==> s[k] != '.',
        find_dot(s) < s.len() ==> s[find_dot(s)] == '.',
    decreases s.len(),
{
    if s.len() == 0 {
    } else if s[0] == '.' {
    } else {
        lemma_find_dot_bounds(s.drop_first());
        assert(forall|k: int| 1 <= k < find_dot(s) ==> s[k] == s.drop_first()[k - 1]);
    }
}

/// `find_dot` is the unique position with no dot before it that is a dot
/// or the end.
pub proof fn lemma_find_dot_characterization(s: Seq<char>, i: int)
    requires
        0 <= i <= s.len(),
        forall|k: int| 0 <= k < i ==> s[k] != '.',
        i < s.len() ==> s[i] == '.',
    ensures
        find_dot(s) == i,
    decreases s.len(),
{
    if s.len() == 0 {
    } else if s[0] == '.' {
        assert(i == 0);
    } else {
        let rest = s.drop_first();
        assert(forall|k: int| 0 <= k < i - 1 ==> rest[k] == s[k + 1] && s[k + 1] != '.');
        lemma_find_dot_characterization(rest, i - 1);
    }
}

/// The dot-separated parts of `s`, in order. Splitting always yields at
/// least one part; empty parts are kept.
pub open spec fn split_on_dot(s: Seq<char>) -> Seq<Seq<char>>
    decreases s.len(),
        via split_on_dot_decreases
{
    let i = find_dot(s);
    if i == s.len() {
        seq![s]
    } else {
        seq![s.take(i)] + split_on_dot(s.skip(i + 1))
    }
}

#[via_fn]
proof fn split_on_dot_decreases(s: Seq<char>) {
    lemma_find_dot_bounds(s);
}

/// A sequence without dots is a single part.
pub proof fn lemma_split_no_dot(s: Seq<char>)
    requires
        forall|k: int| 0 <= k < s.len() ==> s[k] != '.',
    ensures
        split_on_dot(s) == seq![s],
{
    lemma_find_dot_characterization(s, s.len() as int);
}

/// Splitting peels a dot-free prefix off the front.
pub proof fn lemma_split_dot_prefix(a: Seq<char>, rest: Seq<char>)
    requires
        forall|k: int| 0 <= k < a.len() ==> a[k] != '.',
    ensures
        split_on_dot(a + seq!['.'] + rest) == seq![a] + split_on_dot(rest),
{
    let s = a + seq!['.'] + rest;
    assert(s[a.len() as int] == '.');
    assert(forall|k: int| 0 <= k < a.len() ==> s[k] == a[k]);
    lemma_find_dot_characterization(s, a.len() as int);
    assert(s.take(a.len() as int) =~= a);
    assert(s.skip(a.len() as int + 1) =~= rest);
}

/// Whether every character of `q` is a decimal digit.
pub open spec fn all_digits(q: Seq<char>) -> bool {
    forall|i: int| 0 <= i < q.len() ==> '0' <= #[trigger] q[i] <= '9'
}

/// Numeric value of a digit character.
pub open spec fn digit_val(c: char) -> int {
    c as u32 - 48
}

/// Value of `q` read as a decimal numeral, most significant digit first.
pub open spec fn digits_value(q: Seq<char>) -> int
    recommends
        all_digits(q),
    decreases q.len(),
{
    if q.len() == 0 {
        0
    } else {
        digits_value(q.drop_last()) * 10 + digit_val(q.last())
    }
}

/// A numeral's value is never negative.
pub proof fn lemma_digits_value_nonneg(q: Seq<char>)
    requires
        all_digits(q),
    ensures
        digits_value(q) >= 0,
    decreases q.len(),
{
    if q.len() > 0 {
        assert(forall|i: int| 0 <= i < q.len() - 1 ==> q.drop_last()[i] == q[i]);
        lemma_digits_value_nonneg(q.drop_last());
    }
}

/// Extending a numeral to the right never shrinks its value.
pub proof fn lemma_digits_value_prefix(q: Seq<char>, i: int)
    requires
        all_digits(q),
        0 <= i <= q.len(),
    ensures
        digits_value(q.take(i)) <= digits_value(q),
    decreases q.len() - i,
{
    if i == q.len() {
        assert(q.take(i) =~= q);
    } else {
        assert(forall|k: int| 0 <= k < i ==> q.take(i)[k] == q[k]);
        assert(all_digits(q.take(i)));
        lemma_digits_value_nonneg(q.take(i));
        assert(q.take(i + 1).drop_last() =~= q.take(i));
        assert(q.take(i + 1).last() == q[i]);
        assert(digits_value(q.take(i + 1)) == digits_value(q.take(i)) * 10 + digit_val(q[i]));
        lemma_digits_value_prefix(q, i + 1);
    }
}

/// The unsigned 8-bit value a version component denotes: an optional
/// leading '+', then one or more decimal digits, value at most 255.
pub open spec fn component_value(p: Seq<char>) -> Option<u8> {
    let q = if p.len() > 0 && p[0] == '+' {
        p.drop_first()
    } else {
        p
    };
    if q.len() > 0 && all_digits(q) && digits_value(q) <= 255 {
        Some(digits_value(q) as u8)
    } else {
        None
    }
}

/// Outcome of parsing version text, at the specification level.
pub enum VersionParseOutcome {
    /// Exactly three parts, all valid components, with their values.
    Parsed(Seq<u8>),
    /// The first part among the first three that is not a valid
    /// component.
    BadComponent(Seq<char>),
    /// Not exactly three parts, every inspected part valid.
    Malformed,
}

/// What parsing `s` yields: a left-to-right scan inspects at most the
/// first three parts, then the part count must be exactly three.
pub open spec fn spec_parse_version(s: Seq<char>) -> VersionParseOutcome {
    let parts = split_on_dot(s);
    if parts.len() >= 1 && component_value(parts[0]) is None {
        VersionParseOutcome::BadComponent(parts[0])
    } else if parts.len() >= 2 && component_value(parts[1]) is None {
        VersionParseOutcome::BadComponent(parts[1])
    } else if parts.len() >= 3 && component_value(parts[2]) is None {
        VersionParseOutcome::BadComponent(parts[2])
    } else if parts.len() != 3 {
        VersionParseOutcome::Malformed
    } else {
        VersionParseOutcome::Parsed(
            seq![
                component_value(parts[0]).unwrap(),
                component_value(parts[1]).unwrap(),
                component_value(parts[2]).unwrap(),
            ],
        )
    }
}

/// The digit character for `d`.
pub open spec fn dec_digit(d: u8) -> char
    recommends
        d < 10,
{
    ((48 + d) as u8) as char
}

/// Decimal numeral of `n`: one to three digits, no leading zeros.
pub open spec fn dec_chars(n: u8) -> Seq<char> {
    if n < 10 {
        seq![dec_digit(n)]
    } else if n < 100 {
        seq![dec_digit(n / 10), dec_digit(n % 10)]
    } else {
        seq![dec_digit(n / 100), dec_digit((n / 10) % 10), dec_digit(n % 10)]
    }
}

/// Byte form of the numeral, matching `dec_chars` byte for byte.
pub open spec fn dec_bytes(n: u8) -> Seq<u8> {
    if n < 10 {
        seq![(48 + n) as u8]
    } else if n < 100 {
        seq![(48 + n / 10) as u8, (48 + n % 10) as u8]
    } else {
        seq![(48 + n / 100) as u8, (48 + (n / 10) % 10) as u8, (48 + n % 10) as u8]
    }
}

/// The textual "major.minor.patch" form of a three-byte version.
pub open spec fn spec_version_text(ver: Seq<u8>) -> Seq<char>
    recommends
        ver.len() == 3,
{
    dec_chars(ver[0]) + seq!['.'] + dec_chars(ver[1]) + seq!['.'] + dec_chars(ver[2])
}

/// A numeral consists of digits, contains no dot or plus sign, parses
/// back to its value, and corresponds to its byte form character by
/// character.
pub proof fn lemma_dec_chars_value(n: u8)
    ensures
        1 <= dec_chars(n).len() <= 3,
        all_digits(dec_chars(n)),
        forall|k: int|
            0 <= k < dec_chars(n).len() ==> dec_chars(n)[k] != '.' && dec_chars(n)[k] != '+',
        digits_value(dec_chars(n)) == n,
        component_value(dec_chars(n)) == Some(n),
        dec_bytes(n).len() == dec_chars(n).len(),
        forall|k: int| 0 <= k < dec_chars(n).len() ==> dec_chars(n)[k] as u8 == dec_bytes(n)[k],
        is_ascii_chars(dec_chars(n)),
{
    if n < 10 {
        let q = dec_chars(n);
        assert(q.drop_last() =~= Seq::<char>::empty());
        assert(digits_value(Seq::<char>::empty()) == 0);
        assert(q.last() == dec_digit(n));
        assert(digit_val(dec_digit(n)) == n);
        assert(digits_value(q) == n);
    } else if n < 100 {
        let q = dec_chars(n);
        assert(q.drop_last() =~= seq![dec_digit(n / 10)]);
        assert(q.drop_last().drop_last() =~= Seq::<char>::empty());
        assert(digits_value(Seq::<char>::empty()) == 0);
        assert(digit_val(dec_digit(n / 10)) == n / 10);
        assert(digit_val(dec_digit(n % 10)) == n % 10);
        assert(digits_value(q.drop_last()) == n / 10);
        assert(digits_value(q) == (n / 10) * 10 + n % 10);
        assert((n / 10) * 10 + n % 10 == n);
    } else {
        let q = dec_chars(n);
        assert(q.drop_last() =~= seq![dec_digit(n / 100), dec_digit((n / 10) % 10)]);
        assert(q.drop_last().drop_last() =~= seq![dec_digit(n / 100)]);
        assert(q.drop_last().drop_last().drop_last() =~= Seq::<char>::empty());
        assert(digits_value(Seq::<char>::empty()) == 0);
        assert(digit_val(dec_digit(n / 100)) == n / 100);
        assert(digit_val(dec_digit((n / 10) % 10)) == (n / 10) % 10);
        assert(digit_val(dec_digit(n % 10)) == n % 10);
        assert(digits_value(q.drop_last().drop_last()) == n / 100);
        assert(digits_value(q.drop_last()) == (n / 100) * 10 + (n / 10) % 10);
        assert(digits_value(q) == ((n / 100) * 10 + (n / 10) % 10) * 10 + n % 10);
        assert(((n / 100) * 10 + (n / 10) % 10) * 10 + n % 10 == n) by {
            assert(n / 10 == (n / 100) * 10 + (n / 10) % 10);
            assert(n == (n / 10) * 10 + n % 10);
        }
    }
}

/// Rendering a three-byte version to text and parsing it back yields the
/// same three components.
pub proof fn lemma_version_text_parses(ver: Seq<u8>)
    requires
        ver.len() == 3,
    ensures
        spec_parse_version(spec_version_text(ver)) == VersionParseOutcome::Parsed(ver),
{
    let a = dec_chars(ver[0]);
    let b = dec_chars(ver[1]);
    let c = dec_chars(ver[2]);
    lemma_dec_chars_value(ver[0]);
    lemma_dec_chars_value(ver[1]);
    lemma_dec_chars_value(ver[2]);
    let text = spec_version_text(ver);
    assert(text =~= a + seq!['.'] + (b + seq!['.'] + c));
    lemma_split_dot_prefix(a, b + seq!['.'] + c);
    lemma_split_dot_prefix(b, c);
    lemma_split_no_dot(c);
    let parts = split_on_dot(text);
    assert(parts =~= seq![a, b, c]);
    assert(spec_parse_version(text) == VersionParseOutcome::Parsed(
        seq![ver[0], ver[1], ver[2]],
    ));
    assert(seq![ver[0], ver[1], ver[2]] =~= ver);
}

/// A 3-component numeric version tag.
#[derive(Debug, PartialEq, Eq, Default, Clone)]
pub struct Version(pub [u8; 3]);

impl View for Version {
    type V = Seq<u8>;

    open spec fn view(&self) -> Seq<u8> {
        self.0@
    }
}

impl Version {
    /// The fixed 3-byte binary form: one byte per component, in order.
    pub fn to_bytes(&self) -> (r: [u8; 3])
        ensures
            r@ == self@,
    {
        self.0
    }

    /// Rebuilds a version from its fixed 3-byte binary form.
    pub fn from_bytes(bytes: [u8; 3]) -> (r: Version)
        ensures
            r@ == bytes@,
    {
        Version(bytes)
    }

    /// Renders `"{major}.{minor}.{patch}"`; never fails.
    pub fn to_text(&self) -> (r: String)
        ensures
            r@ == spec_version_text(self@),
    {
        let mut bytes: Vec<u8> = Vec::new();
        push_decimal(self.0[0], &mut bytes);
        bytes.push(46);
        push_decimal(self.0[1], &mut bytes);
        bytes.push(46);
        push_decimal(self.0[2], &mut bytes);
        let ghost text = spec_version_text(self@);
        let ghost bv = bytes@;
        proof {
            lemma_dec_chars_value(self.0[0]);
            lemma_dec_chars_value(self.0[1]);
            lemma_dec_chars_value(self.0[2]);
            assert(bytes@ =~= dec_bytes(self.0[0]) + seq![46u8] + dec_bytes(self.0[1]) + seq![46u8]
                + dec_bytes(self.0[2]));
            assert(is_ascii_chars(text));
            is_ascii_chars_encode_utf8(text);
            assert('.' as u8 == 46);
            assert(bytes@ =~= encode_utf8(text));
            encode_utf8_valid_utf8(text);
            encode_utf8_decode_utf8(text);
        }
        match string_from_utf8(bytes) {
            Ok(s) => s,
            Err(_) => {
                proof {
                    assert(valid_utf8(bv));
                    assert(false);
                }
                String::new()
            },
        }
    }

    /// Splits `text` on dots and reads the three components. Fails with
    /// `InvalidVersionComponent` on the first of the (at most three)
    /// inspected parts that is not an unsigned 8-bit numeral, and with
    /// `MalformedVersion` when the part count is not exactly three.
    pub fn parse(text: &str) -> (r: Result<Version, ProtocolError>)
        ensures
            match spec_parse_version(text@) {
                VersionParseOutcome::Parsed(ver) => r is Ok && r.unwrap()@ == ver,
                VersionParseOutcome::BadComponent(p) => r is Err && (r.unwrap_err() matches ProtocolError::InvalidVersionComponent(t)
                    && t@ == p),
                VersionParseOutcome::Malformed => r == Err::<Version, ProtocolError>(
                    ProtocolError::MalformedVersion,
                ),
            },
    {
        let n = text.unicode_len();
        let ghost parts = split_on_dot(text@);
        let mut pos: usize = 0;
        let mut count: usize = 0;
        let mut c0: u8 = 0;
        let mut c1: u8 = 0;
        let mut c2: u8 = 0;
        proof {
            assert(text@.skip(0) =~= text@);
        }
        loop
            invariant_except_break
                n == text@.len(),
                0 <= pos <= n,
                count <= 3,
                parts == split_on_dot(text@),
                count <= parts.len(),
                parts.skip(count as int) == split_on_dot(text@.skip(pos as int)),
                forall|j: int| 0 <= j < count ==> component_value(parts[j]) is Some,
                count >= 1 ==> c0 == component_value(parts[0]).unwrap(),
                count >= 2 ==> c1 == component_value(parts[1]).unwrap(),
                count >= 3 ==> c2 == component_value(parts[2]).unwrap(),
            ensures
                count == parts.len(),
                count <= 3,
                forall|j: int| 0 <= j < count ==> component_value(parts[j]) is Some,
                count >= 1 ==> c0 == component_value(parts[0]).unwrap(),
                count >= 2 ==> c1 == component_value(parts[1]).unwrap(),
                count >= 3 ==> c2 == component_value(parts[2]).unwrap(),
            decreases n - pos,
        {
            let ghost suffix = text@.skip(pos as int);
            let mut j = pos;
            while j < n && text.get_char(j) != '.'
                invariant
                    pos <= j <= n,
                    n == text@.len(),
                    forall|k: int| pos <= k < j ==> text@[k] != '.',
                decreases n - j,
            {
                j += 1;
            }
            proof {
                assert(forall|k: int| 0 <= k < j - pos ==> suffix[k] == text@[pos + k]);
                if j < n {
                    assert(suffix[j - pos] == text@[j as int]);
                }
                lemma_find_dot_characterization(suffix, j - pos);
                assert(suffix.take(j - pos) =~= text@.subrange(pos as int, j as int));
            }
            let ghost part = text@.subrange(pos as int, j as int);
            proof {
                if j == n {
                    assert(suffix.take(j - pos) =~= suffix);
                    assert(split_on_dot(suffix) == seq![suffix]);
                    assert(parts.skip(count as int).len() == 1);
                    assert(parts.len() == count + 1);
                    assert(parts[count as int] == parts.skip(count as int)[0]);
                    assert(parts[count as int] == part);
                } else {
                    assert(split_on_dot(suffix) == seq![part] + split_on_dot(suffix.skip(j - pos + 1)));
                    assert(parts.skip(count as int).len() >= 1);
                    assert(parts.len() >= count + 1);
                    assert(parts[count as int] == parts.skip(count as int)[0]);
                    assert(parts[count as int] == part);
                }
            }
            if count == 3 {
                // a fourth part exists while the first three were valid
                proof {
                    assert(parts.len() >= 4);
                }
                return Err(ProtocolError::MalformedVersion);
            }
            match parse_component(text, pos, j) {
                Some(v) => {
                    if count == 0 {
                        c0 = v;
                    } else if count == 1 {
                        c1 = v;
                    } else {
                        c2 = v;
                    }
                    count += 1;
                },
                None => {
                    let owned = String::from_str(text.substring_char(pos, j));
                    proof {
                        assert(parts.len() > count);
                        assert(component_value(parts[count as int]) is None);
                    }
                    return Err(ProtocolError::InvalidVersionComponent(owned));
                },
            }
            if j == n {
                break ;
            }
            proof {
                assert(suffix.skip(j - pos + 1) =~= text@.skip(j + 1));
                assert(split_on_dot(suffix).skip(1) =~= split_on_dot(text@.skip(j + 1)));
                assert(parts.skip(count as int) =~= parts.skip(count - 1).skip(1));
                assert(parts.skip(count - 1) == split_on_dot(suffix));
                assert(parts.skip(count as int) =~= split_on_dot(text@.skip(j + 1)));
            }
            pos = j + 1;
        }
        if count != 3 {
            return Err(ProtocolError::MalformedVersion);
        }
        let v = Version([c0, c1, c2]);
        proof {
            assert(v@ =~= seq![c0, c1, c2]);
            assert(seq![
                component_value(parts[0]).unwrap(),
                component_value(parts[1]).unwrap(),
                component_value(parts[2]).unwrap(),
            ] =~= seq![c0, c1, c2]);
        }
        Ok(v)
    }
}

/// Reads the component in `text[from..to]` (by character position):
/// `Some` exactly when it is an optional '+' followed by one or more
/// digits denoting a value of at most 255.
fn parse_component(text: &str, from: usize, to: usize) -> (r: Option<u8>)
    requires
        from <= to <= text@.len(),
    ensures
        r == component_value(text@.subrange(from as int, to as int)),
{
    let ghost p = text@.subrange(from as int, to as int);
    let mut i = from;
    if i < to && text.get_char(i) == '+' {
        i += 1;
    }
    let ghost q = text@.subrange(i as int, to as int);
    proof {
        assert(p.len() == to - from);
        if i > from {
            assert(p[0] == text@[from as int]);
            assert(p.drop_first() =~= q);
        } else {
            assert(q =~= p);
        }
    }
    let start = i;
    if i == to {
        return None;
    }
    let mut val: u32 = 0;
    while i < to
        invariant
            from <= start <= i <= to <= text@.len(),
            p == text@.subrange(from as int, to as int),
            q == text@.subrange(start as int, to as int),
            q.len() == to - start,
            all_digits(q.take(i - start)),
            val == digits_value(q.take(i - start)),
            val <= 255,
            component_value(p) == (if q.len() > 0 && all_digits(q) && digits_value(q) <= 255 {
                Some(digits_value(q) as u8)
            } else {
                None
            }),
        decreases to - i,
    {
        let c = text.get_char(i);
        proof {
            assert(q[i - start] == text@[i as int]);
        }
        if c < '0' || c > '9' {
            proof {
                assert(!all_digits(q));
            }
            return None;
        }
        let d = c as u32 - 48;
        proof {
            assert(q.take(i - start + 1).drop_last() =~= q.take(i - start));
            assert(q.take(i - start + 1).last() == q[i - start]);
            assert(forall|k: int| 0 <= k < i - start + 1 ==> q.take(i - start + 1)[k] == q[k]);
        }
        val = val * 10 + d;
        if val > 255 {
            proof {
                if all_digits(q) {
                    lemma_digits_value_prefix(q, i - start + 1);
                }
            }
            return None;
        }
        i += 1;
    }
    proof {
        assert(q.take(i - start) =~= q);
    }
    Some(val as u8)
}

/// Appends the decimal numeral of `n`.
fn push_decimal(n: u8, out: &mut Vec<u8>)
    ensures
        final(out)@ == old(out)@ + dec_bytes(n),
{
    if n >= 100 {
        out.push(48 + n / 100);
        out.push(48 + (n / 10) % 10);
        out.push(48 + n % 10);
        proof {
            assert(out@ =~= old(out)@ + dec_bytes(n));
        }
    } else if n >= 10 {
        out.push(48 + n / 10);
        out.push(48 + n % 10);
        proof {
            assert(out@ =~= old(out)@ + dec_bytes(n));
        }
    } else {
        out.push(48 + n);
        proof {
            assert(out@ =~= old(out)@ + dec_bytes(n));
        }
    }
}

} // verus!
