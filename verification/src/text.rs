//! Character-level building blocks: decimal digits, unsigned integer
//! parsing, Unicode whitespace, and filling the `%s` placeholder of a URL.
use vstd::prelude::*;

verus! {

broadcast use vstd::string::group_string_axioms;

/// The characters of `s`, in order.
pub fn chars_of(s: &str) -> (v: Vec<char>)
    ensures
        v@ == s@,
{
    let mut v: Vec<char> = Vec::new();
    for c in it: s.chars()
        invariant
            it.seq() == s@,
            v@ == s@.take(it.index() as int),
    {
        v.push(c);
    }
    assert(v@ =~= s@);
    v
}

// ---------------------------------------------------------------------------
// Decimal digits
// ---------------------------------------------------------------------------

/// `c` is one of the ASCII digits `0` to `9` (what `char::to_digit(10)` accepts).
pub open spec fn is_ascii_digit(c: char) -> bool {
    48 <= (c as u32) && (c as u32) <= 57
}

/// The value of an ASCII digit.
pub open spec fn digit_of(c: char) -> nat {
    ((c as u32) - 48) as nat
}

/// Every character of `s` is an ASCII digit.
pub open spec fn all_ascii_digits(s: Seq<char>) -> bool {
    forall|i: int| 0 <= i < s.len() ==> is_ascii_digit(#[trigger] s[i])
}

/// The number that a string of decimal digits denotes.
pub open spec fn decimal_value(s: Seq<char>) -> nat
    decreases s.len(),
{
    if s.len() == 0 {
        0
    } else {
        decimal_value(s.drop_last()) * 10 + digit_of(s.last())
    }
}

/// The digits that `str::parse` reads for an unsigned integer: a single
/// leading `+` is skipped.
pub open spec fn unsigned_digits(s: Seq<char>) -> Seq<char> {
    if s.len() > 0 && s[0] == '+' {
        s.skip(1)
    } else {
        s
    }
}

/// What `str::parse` yields for an unsigned integer type whose largest value
/// is `max`: the value when the digits are non-empty, all ASCII digits, and
/// the value fits; otherwise nothing.
pub open spec fn parse_unsigned(s: Seq<char>, max: nat) -> Option<nat> {
    let ds = unsigned_digits(s);
    if ds.len() > 0 && all_ascii_digits(ds) && decimal_value(ds) <= max {
        Some(decimal_value(ds))
    } else {
        None
    }
}

/// The value of a prefix of a digit string never exceeds that of the whole.
pub proof fn lemma_decimal_prefix(s: Seq<char>, k: int)
    requires
        0 <= k <= s.len(),
    ensures
        decimal_value(s.take(k)) <= decimal_value(s),
    decreases s.len(),
{
    if k < s.len() {
        assert(s.drop_last().take(k) =~= s.take(k));
        lemma_decimal_prefix(s.drop_last(), k);
    } else {
        assert(s.take(k) =~= s);
    }
}

/// The ASCII digit of a value below ten.
pub open spec fn digit_char(d: nat) -> char {
    (48 + d) as char
}

/// A single ASCII digit parses to its value.
pub proof fn lemma_parse_digit_char(d: nat, max: nat)
    requires
        d < 10,
        d <= max,
    ensures
        is_ascii_digit(digit_char(d)),
        digit_of(digit_char(d)) == d,
        parse_unsigned(seq![digit_char(d)], max) == Some(d),
{
    let c = digit_char(d);
    assert((c as u32) == 48 + d);
    let s = seq![c];
    assert(unsigned_digits(s) == s);
    assert(s.drop_last() =~= Seq::<char>::empty());
    assert(decimal_value(s.drop_last()) == 0);
    assert(s.last() == c);
    assert(decimal_value(s) == d);
}

/// Executable `is_ascii_digit`.
pub fn char_is_ascii_digit(c: char) -> (r: bool)
    ensures
        r == is_ascii_digit(c),
{
    let u = c as u32;
    48 <= u && u <= 57
}

/// `char::to_digit(10)`: the value of an ASCII digit, nothing otherwise.
pub fn decimal_digit(c: char) -> (r: Option<u32>)
    ensures
        r matches Some(d) ==> is_ascii_digit(c) && d == digit_of(c),
        r is None ==> !is_ascii_digit(c),
{
    let u = c as u32;
    if 48 <= u && u <= 57 {
        Some(u - 48)
    } else {
        None
    }
}

/// Parses `chars` as `str::parse` does for an unsigned integer type whose
/// largest value is `max`.
pub fn parse_unsigned_chars(chars: &Vec<char>, max: u64) -> (r: Option<u64>)
    ensures
        r matches Some(v) ==> parse_unsigned(chars@, max as nat) == Some(v as nat),
        r is None ==> parse_unsigned(chars@, max as nat) is None,
{
    let n = chars.len();
    let mut start: usize = 0;
    if n > 0 && chars[0] == '+' {
        start = 1;
    }
    let ghost ds = unsigned_digits(chars@);
    assert(ds =~= chars@.skip(start as int));
    if start >= n {
        return None;
    }
    let mut acc: u64 = 0;
    let mut i: usize = start;
    while i < n
        invariant
            start <= i <= n,
            n == chars@.len(),
            ds == chars@.skip(start as int),
            ds == unsigned_digits(chars@),
            ds.len() > 0,
            acc as nat == decimal_value(ds.take(i - start)),
            acc <= max,
            all_ascii_digits(ds.take(i - start)),
        decreases n - i,
    {
        let c = chars[i];
        let ghost k: int = i - start;
        assert(ds[k] == c);
        assert(ds.take(k + 1).drop_last() =~= ds.take(k));
        let d = match decimal_digit(c) {
            Some(d) => d,
            None => {
                assert(!all_ascii_digits(ds));
                return None;
            },
        };
        assert(ds.take(k + 1).last() == c);
        assert(decimal_value(ds.take(k + 1)) == acc * 10 + d);
        proof {
            if all_ascii_digits(ds) {
                lemma_decimal_prefix(ds, k + 1);
            }
        }
        let m = match acc.checked_mul(10) {
            Some(m) => m,
            None => {
                return None;
            },
        };
        let next = match m.checked_add(d as u64) {
            Some(x) => x,
            None => {
                return None;
            },
        };
        if next > max {
            return None;
        }
        acc = next;
        i = i + 1;
        assert(all_ascii_digits(ds.take(i - start))) by {
            assert forall|j: int| 0 <= j < ds.take(i - start).len() implies is_ascii_digit(
                #[trigger] ds.take(i - start)[j],
            ) by {
                if j < k {
                    assert(ds.take(i - start)[j] == ds.take(k)[j]);
                }
            }
        }
    }
    assert(ds.take(n - start) =~= ds);
    Some(acc)
}

// ---------------------------------------------------------------------------
// Whitespace
// ---------------------------------------------------------------------------

/// `c` has the Unicode `White_Space` property (what `char::is_whitespace`
/// tests): U+0009 to U+000D, U+0020, U+0085, U+00A0, U+1680, U+2000 to
/// U+200A, U+2028, U+2029, U+202F, U+205F and U+3000.
pub open spec fn is_unicode_whitespace(c: char) -> bool {
    let u = c as u32;
    ||| 0x09 <= u && u <= 0x0D
    ||| u == 0x20
    ||| u == 0x85
    ||| u == 0xA0
    ||| u == 0x1680
    ||| 0x2000 <= u && u <= 0x200A
    ||| u == 0x2028
    ||| u == 0x2029
    ||| u == 0x202F
    ||| u == 0x205F
    ||| u == 0x3000
}

/// Executable `is_unicode_whitespace`.
pub fn char_is_whitespace(c: char) -> (r: bool)
    ensures
        r == is_unicode_whitespace(c),
{
    let u = c as u32;
    (0x09 <= u && u <= 0x0D) || u == 0x20 || u == 0x85 || u == 0xA0 || u == 0x1680 || (0x2000
        <= u && u <= 0x200A) || u == 0x2028 || u == 0x2029 || u == 0x202F || u == 0x205F || u
        == 0x3000
}

/// `s` with every whitespace character taken out, the others kept in order.
pub open spec fn remove_whitespace(s: Seq<char>) -> Seq<char>
    decreases s.len(),
{
    if s.len() == 0 {
        seq![]
    } else if is_unicode_whitespace(s.last()) {
        remove_whitespace(s.drop_last())
    } else {
        remove_whitespace(s.drop_last()).push(s.last())
    }
}

/// No character of `s` is whitespace.
pub open spec fn has_no_whitespace(s: Seq<char>) -> bool {
    forall|i: int| 0 <= i < s.len() ==> !is_unicode_whitespace(#[trigger] s[i])
}

/// Appends `c` to `s` by `String::push`, which adds the character at the end.
#[verifier::external_body]
pub(crate) fn push_char(s: &mut String, c: char)
    ensures
        final(s)@ == old(s)@.push(c),
{
    s.push(c);
}

/// The string made of `chars`.
pub fn string_of(chars: &Vec<char>) -> (r: String)
    ensures
        r@ == chars@,
{
    let mut out = String::new();
    let n = chars.len();
    let mut i: usize = 0;
    while i < n
        invariant
            n == chars@.len(),
            i <= n,
            out@ == chars@.take(i as int),
        decreases n - i,
    {
        push_char(&mut out, chars[i]);
        i = i + 1;
        assert(out@ =~= chars@.take(i as int));
    }
    assert(chars@.take(n as int) =~= chars@);
    out
}

/// The characters of `chars` that are not whitespace, as a string.
pub fn strip_whitespace(chars: &Vec<char>) -> (r: String)
    ensures
        r@ == remove_whitespace(chars@),
{
    let mut out = String::new();
    let n = chars.len();
    let mut i: usize = 0;
    while i < n
        invariant
            n == chars@.len(),
            i <= n,
            out@ == remove_whitespace(chars@.take(i as int)),
        decreases n - i,
    {
        let c = chars[i];
        assert(chars@.take(i + 1).drop_last() =~= chars@.take(i as int));
        if !char_is_whitespace(c) {
            push_char(&mut out, c);
        }
        i = i + 1;
    }
    assert(chars@.take(n as int) =~= chars@);
    out
}

/// What whitespace removal leaves holds no whitespace.
pub proof fn lemma_remove_whitespace_clean(s: Seq<char>)
    ensures
        has_no_whitespace(remove_whitespace(s)),
    decreases s.len(),
{
    if s.len() > 0 {
        lemma_remove_whitespace_clean(s.drop_last());
        let r = remove_whitespace(s.drop_last());
        if !is_unicode_whitespace(s.last()) {
            assert forall|i: int| 0 <= i < r.push(s.last()).len() implies !is_unicode_whitespace(
                #[trigger] r.push(s.last())[i],
            ) by {
                if i < r.len() {
                    assert(r.push(s.last())[i] == r[i]);
                }
            }
        }
    }
}

/// A string without whitespace is left as it is by whitespace removal.
pub proof fn lemma_remove_whitespace_noop(s: Seq<char>)
    requires
        has_no_whitespace(s),
    ensures
        remove_whitespace(s) == s,
    decreases s.len(),
{
    if s.len() > 0 {
        assert(!is_unicode_whitespace(s[s.len() - 1]));
        assert forall|i: int| 0 <= i < s.drop_last().len() implies !is_unicode_whitespace(
            #[trigger] s.drop_last()[i],
        ) by {
            assert(s.drop_last()[i] == s[i]);
        }
        lemma_remove_whitespace_noop(s.drop_last());
        assert(s.drop_last().push(s.last()) =~= s);
    }
}

// ---------------------------------------------------------------------------
// The `%s` placeholder of a tracking URL
// ---------------------------------------------------------------------------

/// `s` begins with the placeholder `%s`.
pub open spec fn starts_with_placeholder(s: Seq<char>) -> bool {
    s.len() >= 2 && s[0] == '%' && s[1] == 's'
}

/// `s` with every `%s`, found from left to right without overlap, replaced
/// by `value` (what `str::replace("%s", value)` yields).
pub open spec fn fill_placeholder(s: Seq<char>, value: Seq<char>) -> Seq<char>
    decreases s.len(),
{
    if s.len() == 0 {
        seq![]
    } else if starts_with_placeholder(s) {
        value + fill_placeholder(s.skip(2), value)
    } else {
        seq![s[0]] + fill_placeholder(s.skip(1), value)
    }
}

/// `t` occurs in `s` starting at index `i`.
pub open spec fn occurs_at(s: Seq<char>, t: Seq<char>, i: int) -> bool {
    0 <= i && i + t.len() <= s.len() && s.subrange(i, i + t.len()) == t
}

/// `t` occurs somewhere in `s`.
pub open spec fn occurs_in(s: Seq<char>, t: Seq<char>) -> bool {
    exists|i: int| occurs_at(s, t, i)
}

/// No `%` in `s` is followed by an `s`.
pub open spec fn has_no_placeholder(s: Seq<char>) -> bool {
    forall|k: int| 0 <= k < s.len() - 1 ==> !(#[trigger] s[k] == '%' && s[k + 1] == 's')
}

/// `template` with its `%s` placeholders replaced by `value`.
pub fn fill_url(template: &str, value: &str) -> (r: String)
    ensures
        r@ == fill_placeholder(template@, value@),
{
    let chars = chars_of(template);
    let n = chars.len();
    let mut out = String::new();
    let mut i: usize = 0;
    assert(chars@.skip(0) =~= chars@);
    assert(out@ + fill_placeholder(chars@, value@) =~= fill_placeholder(chars@, value@));
    while i < n
        invariant
            n == chars@.len(),
            chars@ == template@,
            i <= n,
            out@ + fill_placeholder(chars@.skip(i as int), value@) == fill_placeholder(
                chars@,
                value@,
            ),
        decreases n - i,
    {
        let ghost rest = chars@.skip(i as int);
        if i + 1 < n && chars[i] == '%' && chars[i + 1] == 's' {
            assert(starts_with_placeholder(rest));
            assert(rest.skip(2) =~= chars@.skip(i + 2));
            let ghost before = out@;
            out.append(value);
            assert(out@ + fill_placeholder(chars@.skip(i + 2), value@) =~= before
                + fill_placeholder(rest, value@));
            i = i + 2;
        } else {
            assert(!starts_with_placeholder(rest));
            assert(rest.skip(1) =~= chars@.skip(i + 1));
            let ghost before = out@;
            push_char(&mut out, chars[i]);
            assert(out@ + fill_placeholder(chars@.skip(i + 1), value@) =~= before
                + fill_placeholder(rest, value@));
            i = i + 1;
        }
    }
    assert(chars@.skip(n as int) =~= Seq::<char>::empty());
    assert(out@ + Seq::<char>::empty() =~= out@);
    out
}

/// Law: where the template holds the placeholder, the filled URL holds the
/// value.
pub proof fn lemma_fill_contains_value(s: Seq<char>, value: Seq<char>)
    requires
        occurs_in(s, seq!['%', 's']),
    ensures
        occurs_in(fill_placeholder(s, value), value),
    decreases s.len(),
{
    let i = choose|i: int| occurs_at(s, seq!['%', 's'], i);
    assert(s.subrange(i, i + 2) == seq!['%', 's']);
    assert(s[i] == s.subrange(i, i + 2)[0]);
    assert(s[i + 1] == s.subrange(i, i + 2)[1]);
    if starts_with_placeholder(s) {
        let out = value + fill_placeholder(s.skip(2), value);
        assert(out.subrange(0, value.len() as int) =~= value);
        assert(occurs_at(out, value, 0));
    } else {
        assert(i >= 1);
        let t = s.skip(1);
        assert(t.subrange(i - 1, i + 1) =~= s.subrange(i, i + 2));
        assert(occurs_at(t, seq!['%', 's'], i - 1));
        lemma_fill_contains_value(t, value);
        let r = fill_placeholder(t, value);
        let j = choose|j: int| occurs_at(r, value, j);
        let out = seq![s[0]] + r;
        assert(out.subrange(j + 1, j + 1 + value.len()) =~= r.subrange(j, j + value.len()));
        assert(occurs_at(out, value, j + 1));
    }
}

/// The first character of a filled template.
proof fn lemma_fill_first(s: Seq<char>, value: Seq<char>)
    requires
        s.len() > 0,
        value.len() > 0,
    ensures
        fill_placeholder(s, value).len() > 0,
        fill_placeholder(s, value)[0] == (if starts_with_placeholder(s) {
            value[0]
        } else {
            s[0]
        }),
{
}

/// Law: when the value is non-empty, holds no `%` and does not begin with
/// `s`, no placeholder is left in the filled URL.
pub proof fn lemma_fill_leaves_no_placeholder(s: Seq<char>, value: Seq<char>)
    requires
        value.len() > 0,
        value[0] != 's',
        forall|j: int| 0 <= j < value.len() ==> value[j] != '%',
    ensures
        has_no_placeholder(fill_placeholder(s, value)),
    decreases s.len(),
{
    if s.len() > 0 {
        if starts_with_placeholder(s) {
            lemma_fill_leaves_no_placeholder(s.skip(2), value);
            let r = fill_placeholder(s.skip(2), value);
            let out = value + r;
            assert forall|k: int| 0 <= k < out.len() - 1 implies !(#[trigger] out[k] == '%'
                && out[k + 1] == 's') by {
                if k < value.len() {
                    assert(out[k] == value[k]);
                } else {
                    assert(out[k] == r[k - value.len()]);
                    assert(out[k + 1] == r[k + 1 - value.len()]);
                }
            }
        } else {
            lemma_fill_leaves_no_placeholder(s.skip(1), value);
            let r = fill_placeholder(s.skip(1), value);
            let out = seq![s[0]] + r;
            assert forall|k: int| 0 <= k < out.len() - 1 implies !(#[trigger] out[k] == '%'
                && out[k + 1] == 's') by {
                if k == 0 {
                    lemma_fill_first(s.skip(1), value);
                    assert(out[1] == r[0]);
                    if s[0] == '%' && s.len() >= 2 {
                        assert(s[1] != 's');
                        assert(s.skip(1)[0] == s[1]);
                    }
                } else {
                    assert(out[k] == r[k - 1]);
                    assert(out[k + 1] == r[k]);
                }
            }
        }
    }
}

} // verus!
