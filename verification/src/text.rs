use vstd::prelude::*;

verus! {

/// What `String::from_utf8_lossy` makes of a byte sequence: the text it
/// encodes, with each ill-formed part replaced by U+FFFD.
pub uninterp spec fn utf8_lossy(bytes: Seq<u8>) -> Seq<char>;

/// The text that some bytes decode to as UTF-8: the characters they encode
/// where they are well-formed UTF-8, else what `String::from_utf8_lossy`
/// makes of them.
pub open spec fn utf8_text(bytes: Seq<u8>) -> Seq<char> {
    if vstd::utf8::valid_utf8(bytes) { vstd::utf8::decode_utf8(bytes) } else { utf8_lossy(bytes) }
}

/// Decodes bytes as UTF-8, replacing ill-formed parts (std's
/// `String::from_utf8_lossy`). The contract names the result and states what
/// std's documentation promises: well-formed UTF-8 is decoded as it stands.
#[verifier::external_body]
pub fn lossy(bytes: &[u8]) -> (text: String)
    ensures
        text@ == utf8_lossy(bytes@),
        vstd::utf8::valid_utf8(bytes@) ==> text@ == vstd::utf8::decode_utf8(bytes@),
{
    String::from_utf8_lossy(bytes).into_owned()
}

/// std's `String::push` appends one character.
pub assume_specification[ String::push ](string: &mut String, ch: char)
    ensures
        final(string)@ == old(string)@.push(ch),
;

/// Appends a text to a string.
pub fn append(string: &mut String, text: &str)
    ensures
        final(string)@ == old(string)@ + text@,
{
    let chars = chars_of(text);
    let ghost start = string@;
    let mut i: usize = 0;
    while i < chars.len()
        invariant
            i <= chars@.len(),
            chars@ == text@,
            string@ == start + chars@.take(i as int),
            start == old(string)@,
        decreases chars@.len() - i,
    {
        string.push(chars[i]);
        i += 1;
        assert(string@ =~= start + chars@.take(i as int));
    }
    assert(chars@.take(chars@.len() as int) =~= chars@);
}

/// An owned copy of a string slice.
pub fn owned(text: &str) -> (r: String)
    ensures
        r@ == text@,
{
    String::from_str(text)
}

/// The empty string.
pub fn empty() -> (r: String)
    ensures
        r@ == Seq::<char>::empty(),
{
    String::new()
}

/// The ten decimal digits.
pub const DIGITS: [char; 10] = ['0', '1', '2', '3', '4', '5', '6', '7', '8', '9'];

/// The decimal digit for `d`, which is below ten.
pub open spec fn digit(d: nat) -> char {
    DIGITS@[d as int]
}

/// The decimal notation of a natural number, without leading zeros.
pub open spec fn decimal(n: nat) -> Seq<char>
    decreases n,
{
    if n < 10 {
        seq![digit(n)]
    } else {
        decimal(n / 10).push(digit(n % 10))
    }
}

/// The decimal notation of an integer, with a minus sign when it is negative.
pub open spec fn signed_decimal(n: int) -> Seq<char> {
    if n < 0 {
        seq!['-'] + decimal((-n) as nat)
    } else {
        decimal(n as nat)
    }
}

/// Appends the decimal notation of `n`.
pub fn push_decimal(text: &mut String, n: u64)
    ensures
        final(text)@ == old(text)@ + decimal(n as nat),
    decreases n,
{
    if n >= 10 {
        push_decimal(text, n / 10);
    }
    let d = (n % 10) as usize;
    text.push(DIGITS[d]);
    proof {
        assert(decimal(n as nat) == if n < 10 {
            seq![digit(n as nat)]
        } else {
            decimal((n / 10) as nat).push(digit((n % 10) as nat))
        });
    }
}

/// The decimal notation of `n`.
pub fn decimal_text(n: u64) -> (r: String)
    ensures
        r@ == decimal(n as nat),
{
    let mut text = empty();
    push_decimal(&mut text, n);
    text
}

/// The decimal notation of `n`, with a minus sign when it is negative.
pub fn signed_text(n: i64) -> (r: String)
    ensures
        r@ == signed_decimal(n as int),
{
    let mut text = empty();
    if n < 0 {
        text.push('-');
        let m = (0 - (n as i128)) as u64;
        push_decimal(&mut text, m);
    } else {
        push_decimal(&mut text, n as u64);
    }
    text
}

/// Whether every character is an ASCII digit.
pub open spec fn all_digits(s: Seq<char>) -> bool {
    forall|i: int| 0 <= i < s.len() ==> '0' <= #[trigger] s[i] <= '9'
}

/// The number that a string of ASCII digits spells.
pub open spec fn digits_value(s: Seq<char>) -> nat
    decreases s.len(),
{
    if s.len() == 0 {
        0
    } else {
        digits_value(s.drop_last()) * 10 + ((s.last() as int) - ('0' as int)) as nat
    }
}

/// What `str::parse::<u32>` gives: an optional `+`, then one or more ASCII
/// digits whose value fits in 32 bits; anything else fails.
pub open spec fn parse_u32(s: Seq<char>) -> Option<u32> {
    let d = if s.len() > 0 && s[0] == '+' { s.drop_first() } else { s };
    if d.len() == 0 || !all_digits(d) || digits_value(d) > u32::MAX {
        None
    } else {
        Some(digits_value(d) as u32)
    }
}

/// The characters of a string.
pub fn chars_of(text: &str) -> (r: Vec<char>)
    ensures
        r@ == text@,
{
    let mut out: Vec<char> = Vec::new();
    for c in it: text.chars()
        invariant
            it.seq() == text@,
            out@ == it.seq().take(it.index() as int),
    {
        out.push(c);
        assert(out@ =~= it.seq().take(it.index() + 1));
    }
    assert(out@ =~= text@);
    out
}

proof fn lemma_digits_value_push(s: Seq<char>, c: char)
    ensures
        digits_value(s.push(c)) == digits_value(s) * 10 + ((c as int) - ('0' as int)) as nat,
{
    assert(s.push(c).drop_last() =~= s);
}

/// Reads a 32-bit unsigned number as `str::parse::<u32>` does.
pub fn text_to_u32(text: &str) -> (r: Option<u32>)
    ensures
        r == parse_u32(text@),
{
    let chars = chars_of(text);
    let n = chars.len();
    let start: usize = if n > 0 && chars[0] == '+' { 1 } else { 0 };
    let ghost d = if text@.len() > 0 && text@[0] == '+' { text@.drop_first() } else { text@ };
    assert(d =~= chars@.skip(start as int));
    if start == n {
        return None;
    }
    let mut value: u64 = 0;
    let mut i = start;
    while i < n
        invariant
            start <= i <= n,
            n == chars@.len(),
            chars@ == text@,
            d == (if text@.len() > 0 && text@[0] == '+' { text@.drop_first() } else { text@ }),
            d =~= chars@.skip(start as int),
            all_digits(chars@.subrange(start as int, i as int)),
            value == digits_value(chars@.subrange(start as int, i as int)),
            value <= u32::MAX,
        decreases n - i,
    {
        let c = chars[i];
        if c < '0' || c > '9' {
            assert(d[i - start] == c);
            assert(!all_digits(d));
            return None;
        }
        let ghost prefix = chars@.subrange(start as int, i as int);
        assert(chars@.subrange(start as int, i + 1) =~= prefix.push(c));
        proof {
            lemma_digits_value_push(prefix, c);
        }
        let next = value * 10 + (c as u64 - '0' as u64);
        if next > 0xffff_ffff {
            assert(d.take(i + 1 - start) =~= chars@.subrange(start as int, i + 1));
            assert(all_digits(d.take(i + 1 - start)));
            proof {
                lemma_digits_value_monotone(d, (i + 1 - start) as int);
            }
            return None;
        }
        value = next;
        i += 1;
    }
    assert(chars@.subrange(start as int, n as int) =~= d);
    Some(value as u32)
}

proof fn lemma_digits_value_monotone(s: Seq<char>, k: int)
    requires
        0 <= k <= s.len(),
        all_digits(s.take(k)),
        all_digits(s) || true,
    ensures
        all_digits(s) ==> digits_value(s) >= digits_value(s.take(k)),
    decreases s.len() - k,
{
    if k < s.len() && all_digits(s) {
        assert(s.take(k + 1).drop_last() =~= s.take(k));
        lemma_digits_value_monotone(s, k + 1);
    } else if k == s.len() {
        assert(s.take(k) =~= s);
    }
}

/// `count` copies of `piece` separated by single spaces, as
/// `[piece; count].join(" ")` gives.
pub open spec fn repeat_join(piece: Seq<char>, count: nat) -> Seq<char>
    decreases count,
{
    if count == 0 {
        Seq::empty()
    } else if count == 1 {
        piece
    } else {
        repeat_join(piece, (count - 1) as nat) + seq![' '] + piece
    }
}

/// `count` copies of `piece`, separated by single spaces.
pub fn repeat_text(piece: &str, count: u64) -> (r: String)
    ensures
        r@ == repeat_join(piece@, count as nat),
{
    let mut text = empty();
    let mut k: u64 = 0;
    while k < count
        invariant
            k <= count,
            text@ == repeat_join(piece@, k as nat),
        decreases count - k,
    {
        if k > 0 {
            text.push(' ');
        }
        text.append(piece);
        k += 1;
        assert(text@ =~= repeat_join(piece@, k as nat));
    }
    text
}

/// The name that a table of codes gives to `code`: that of its first entry
/// with that code, or `Unknown` where there is none.
pub open spec fn lookup(table: Seq<(u16, &'static str)>, code: int) -> Seq<char>
    decreases table.len(),
{
    if table.len() == 0 {
        crate::UNKNOWN@
    } else if table[0].0 == code {
        table[0].1@
    } else {
        lookup(table.drop_first(), code)
    }
}

/// Looks `code` up in a table of codes and names.
pub fn find_name(table: &[(u16, &'static str)], code: u16) -> (r: &'static str)
    ensures
        r@ == lookup(table@, code as int),
{
    let mut i: usize = 0;
    assert(table@.skip(0) =~= table@);
    while i < table.len()
        invariant
            i <= table@.len(),
            lookup(table@, code as int) == lookup(table@.skip(i as int), code as int),
        decreases table@.len() - i,
    {
        assert(table@.skip(i as int).drop_first() =~= table@.skip(i + 1));
        if table[i].0 == code {
            return table[i].1;
        }
        i += 1;
    }
    crate::UNKNOWN
}

/// An ASCII whitespace character: space, tab, line feed, form feed or
/// carriage return.
pub open spec fn ascii_space(c: char) -> bool {
    c == ' ' || c == '\t' || c == '\n' || c == '\x0C' || c == '\r'
}

/// A text without its leading ASCII whitespace.
pub open spec fn trim_start(s: Seq<char>) -> Seq<char>
    decreases s.len(),
{
    if s.len() > 0 && ascii_space(s[0]) { trim_start(s.drop_first()) } else { s }
}

/// A text without its trailing ASCII whitespace.
pub open spec fn trim_end(s: Seq<char>) -> Seq<char>
    decreases s.len(),
{
    if s.len() > 0 && ascii_space(s.last()) { trim_end(s.drop_last()) } else { s }
}

/// A text without its leading and trailing ASCII whitespace.
pub open spec fn trimmed(s: Seq<char>) -> Seq<char> {
    trim_end(trim_start(s))
}

/// Whether a character is ASCII whitespace.
fn is_ascii_space(c: char) -> (r: bool)
    ensures
        r == ascii_space(c),
{
    c == ' ' || c == '\t' || c == '\n' || c == '\x0C' || c == '\r'
}

/// A text without its leading and trailing ASCII whitespace (std's
/// `str::trim_ascii`).
pub fn trim_ascii(text: &String) -> (r: String)
    ensures
        r@ == trimmed(text@),
{
    let chars = chars_of(text.as_str());
    let n = chars.len();
    let mut a: usize = 0;
    assert(chars@.subrange(0, n as int) =~= chars@);
    while a < n && is_ascii_space(chars[a])
        invariant
            a <= n,
            n == chars@.len(),
            trim_start(chars@) == trim_start(chars@.subrange(a as int, n as int)),
        decreases n - a,
    {
        assert(chars@.subrange(a as int, n as int).drop_first() =~= chars@.subrange(a + 1, n as int));
        a += 1;
    }
    assert(trim_start(chars@) == chars@.subrange(a as int, n as int));
    let mut b: usize = n;
    while b > a && is_ascii_space(chars[b - 1])
        invariant
            a <= b <= n,
            n == chars@.len(),
            trim_end(chars@.subrange(a as int, n as int)) == trim_end(chars@.subrange(a as int, b as int)),
        decreases b,
    {
        assert(chars@.subrange(a as int, b as int).drop_last() =~= chars@.subrange(a as int, b - 1));
        b -= 1;
    }
    assert(trim_end(chars@.subrange(a as int, b as int)) == chars@.subrange(a as int, b as int));
    crate::xml::string_of(&chars.as_slice()[a..b])
}

/// Whether a text is empty.
pub fn is_empty_text(text: &String) -> (r: bool)
    ensures
        r == (text@.len() == 0),
{
    chars_of(text.as_str()).len() == 0
}

/// Whether two byte strings are equal.
pub fn same_bytes(a: &[u8], b: &[u8]) -> (r: bool)
    ensures
        r == (a@ == b@),
{
    if a.len() != b.len() {
        return false;
    }
    let mut i: usize = 0;
    while i < a.len()
        invariant
            i <= a@.len(),
            a@.len() == b@.len(),
            forall|j: int| 0 <= j < i ==> a@[j] == b@[j],
        decreases a@.len() - i,
    {
        if a[i] != b[i] {
            return false;
        }
        i += 1;
    }
    assert(a@ =~= b@);
    true
}

} // verus!
