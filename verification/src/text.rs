//! Byte strings: decimal numbers, fields, and white space.
use vstd::prelude::*;

verus! {

/// The byte of decimal digit `d`.
pub open spec fn digit(d: int) -> u8 {
    (48 + d) as u8
}

/// The decimal numeral of `n`, without leading zeros.
pub open spec fn decimal(n: nat) -> Seq<u8>
    decreases n,
{
    if n < 10 {
        seq![digit(n as int)]
    } else {
        decimal(n / 10).push(digit((n % 10) as int))
    }
}

/// Whether `b` is a decimal digit.
pub open spec fn is_digit(b: u8) -> bool {
    48 <= b <= 57
}

/// Whether every byte of `s` is a decimal digit.
pub open spec fn all_digits(s: Seq<u8>) -> bool {
    forall|i: int| 0 <= i < s.len() ==> is_digit(#[trigger] s[i])
}

/// The number that a sequence of decimal digits denotes.
pub open spec fn digits_value(s: Seq<u8>) -> nat
    decreases s.len(),
{
    if s.len() == 0 {
        0
    } else {
        (digits_value(s.drop_last()) * 10 + (s.last() - 48)) as nat
    }
}

/// A numeral without its optional leading plus sign.
pub open spec fn unsigned_digits(s: Seq<u8>) -> Seq<u8> {
    if s.len() > 0 && s[0] == 43 {
        s.subrange(1, s.len() as int)
    } else {
        s
    }
}

/// The number that `s` denotes: an optional plus sign followed by at least one
/// decimal digit and nothing else, if the number fits a machine word.
pub open spec fn parsed_number(s: Seq<u8>) -> Option<usize> {
    let d = unsigned_digits(s);
    if d.len() > 0 && all_digits(d) && digits_value(d) <= usize::MAX {
        Some(digits_value(d) as usize)
    } else {
        None
    }
}

/// Whether `b` is ASCII white space.
pub open spec fn is_space(b: u8) -> bool {
    b == 32 || (9 <= b <= 13)
}

/// Whether the two bytes encode a white space character: U+0085 or U+00A0.
pub open spec fn is_space_pair(a: u8, b: u8) -> bool {
    a == 0xc2 && (b == 0x85 || b == 0xa0)
}

/// Whether the three bytes encode a white space character: U+1680, U+2000 to
/// U+200A, U+2028, U+2029, U+202F, U+205F or U+3000.
pub open spec fn is_space_triple(a: u8, b: u8, c: u8) -> bool {
    ||| a == 0xe1 && b == 0x9a && c == 0x80
    ||| a == 0xe2 && b == 0x80 && (0x80 <= c <= 0x8a || c == 0xa8 || c == 0xa9 || c == 0xaf)
    ||| a == 0xe2 && b == 0x81 && c == 0x9f
    ||| a == 0xe3 && b == 0x80 && c == 0x80
}

/// The number of bytes of the white space character that starts at `from`;
/// zero if none does.
pub open spec fn space_at(s: Seq<u8>, from: int) -> int {
    if from < s.len() && is_space(s[from]) {
        1
    } else if from + 1 < s.len() && is_space_pair(s[from], s[from + 1]) {
        2
    } else if from + 2 < s.len() && is_space_triple(s[from], s[from + 1], s[from + 2]) {
        3
    } else {
        0
    }
}

/// The number of bytes of the white space character that ends at `end` and
/// starts not before `from`; zero if there is none.
pub open spec fn space_before(s: Seq<u8>, from: int, end: int) -> int {
    if from <= end - 1 && is_space(s[end - 1]) {
        1
    } else if from <= end - 2 && is_space_pair(s[end - 2], s[end - 1]) {
        2
    } else if from <= end - 3 && is_space_triple(s[end - 3], s[end - 2], s[end - 1]) {
        3
    } else {
        0
    }
}

/// The index of the first byte from `from` on that does not begin a white
/// space character, or the length of `s`.
pub open spec fn skip_spaces(s: Seq<u8>, from: int) -> int
    decreases s.len() - from,
{
    if from >= s.len() || space_at(s, from) == 0 {
        from
    } else {
        skip_spaces(s, from + space_at(s, from))
    }
}

/// The end of `s` without trailing white space characters, not before `from`.
pub open spec fn drop_spaces(s: Seq<u8>, from: int, end: int) -> int
    decreases end - from,
{
    if end <= from || space_before(s, from, end) == 0 {
        end
    } else {
        drop_spaces(s, from, end - space_before(s, from, end))
    }
}

/// `s` without leading and trailing white space characters.
pub open spec fn trimmed(s: Seq<u8>) -> Seq<u8> {
    let start = skip_spaces(s, 0);
    s.subrange(start, drop_spaces(s, start, s.len() as int))
}

/// The index of the first occurrence of `b` in `s` from `from` on, or the
/// length of `s`.
pub open spec fn find(s: Seq<u8>, b: u8, from: int) -> int
    decreases s.len() - from,
{
    if from >= s.len() {
        s.len() as int
    } else if s[from] == b {
        from
    } else {
        find(s, b, from + 1)
    }
}

/// The lower-case form of an ASCII letter; any other byte is itself.
pub open spec fn lower(b: u8) -> u8 {
    if 65 <= b <= 90 {
        (b + 32) as u8
    } else {
        b
    }
}

/// Whether two byte strings are equal up to the case of ASCII letters.
pub open spec fn same_ignoring_case(a: Seq<u8>, b: Seq<u8>) -> bool {
    a.len() == b.len() && forall|i: int| 0 <= i < a.len() ==> lower(#[trigger] a[i]) == lower(b[i])
}

/// What is found lies from the start on, is the byte sought, and is the first
/// such.
pub proof fn lemma_find_bounds(s: Seq<u8>, b: u8, from: int)
    requires
        0 <= from <= s.len(),
    ensures
        from <= find(s, b, from) <= s.len(),
        find(s, b, from) < s.len() ==> s[find(s, b, from)] == b,
        forall|i: int| from <= i < find(s, b, from) ==> s[i] != b,
    decreases s.len() - from,
{
    if from < s.len() && s[from] != b {
        lemma_find_bounds(s, b, from + 1);
    }
}

/// A numeral denotes at least what any of its prefixes denotes.
pub proof fn lemma_digits_value_grows(s: Seq<u8>, k: int)
    requires
        0 <= k <= s.len(),
        all_digits(s),
    ensures
        digits_value(s.take(k)) <= digits_value(s),
    decreases s.len(),
{
    if k < s.len() {
        assert(all_digits(s.drop_last())) by {
            assert forall|i: int| 0 <= i < s.drop_last().len() implies is_digit(
                #[trigger] s.drop_last()[i],
            ) by {
                assert(s.drop_last()[i] == s[i]);
            }
        }
        lemma_digits_value_grows(s.drop_last(), k);
        assert(s.drop_last().take(k) =~= s.take(k));
        assert(is_digit(s[s.len() - 1]));
    } else {
        assert(s.take(k) =~= s);
    }
}

/// Appends the decimal numeral of `n`.
pub fn push_decimal(out: &mut Vec<u8>, n: usize)
    ensures
        final(out)@ == old(out)@ + decimal(n as nat),
    decreases n,
{
    if n >= 10 {
        push_decimal(out, n / 10);
    }
    out.push(48 + (n % 10) as u8);
    proof {
        if n >= 10 {
            assert(out@ =~= old(out)@ + decimal(n as nat));
        } else {
            assert(out@ =~= old(out)@ + decimal(n as nat));
        }
    }
}

/// Reads a number: an optional plus sign followed by decimal digits.
pub fn parse_number(s: &[u8]) -> (value: Option<usize>)
    ensures
        value == parsed_number(s@),
{
    let start: usize = if s.len() > 0 && s[0] == 43 {
        1
    } else {
        0
    };
    let ghost d = unsigned_digits(s@);
    assert(d =~= s@.subrange(start as int, s@.len() as int));
    if start >= s.len() {
        return None;
    }
    let mut acc: usize = 0;
    let mut i: usize = start;
    assert(d.take(0) =~= Seq::empty());
    while i < s.len()
        invariant
            start <= i <= s.len(),
            d == unsigned_digits(s@),
            d == s@.subrange(start as int, s@.len() as int),
            all_digits(d.take(i - start)),
            acc == digits_value(d.take(i - start)),
        decreases s.len() - i,
    {
        let b = s[i];
        if b < 48 || b > 57 {
            proof {
                assert(d[i - start] == b);
                assert(!all_digits(d));
            }
            return None;
        }
        let v = (b - 48) as usize;
        proof {
            assert(d.take(i - start + 1).drop_last() =~= d.take(i - start));
            assert(d.take(i - start + 1).last() == b);
            assert forall|k: int| 0 <= k < d.take(i - start + 1).len() implies is_digit(
                #[trigger] d.take(i - start + 1)[k],
            ) by {
                if k < i - start {
                    assert(d.take(i - start + 1)[k] == d.take(i - start)[k]);
                }
            }
        }
        if acc > (usize::MAX - v) / 10 {
            proof {
                assert(digits_value(d.take(i - start + 1)) > usize::MAX);
                if all_digits(d) {
                    lemma_digits_value_grows(d, i - start + 1);
                }
            }
            return None;
        }
        acc = acc * 10 + v;
        i += 1;
    }
    proof {
        assert(d.take(i - start) =~= d);
    }
    Some(acc)
}

/// The number of bytes of the white space character that starts at `from`.
pub fn space_len_at(s: &[u8], from: usize) -> (k: usize)
    requires
        from <= s@.len(),
    ensures
        k == space_at(s@, from as int),
        from + k <= s@.len(),
{
    let len = s.len();
    if from < len && is_space_byte(s[from]) {
        1
    } else if len - from >= 2 && s[from] == 0xc2 && (s[from + 1] == 0x85 || s[from + 1] == 0xa0) {
        2
    } else if len - from >= 3 && is_wide_space(s[from], s[from + 1], s[from + 2]) {
        3
    } else {
        0
    }
}

/// The number of bytes of the white space character that ends at `end` and
/// starts not before `from`.
pub fn space_len_before(s: &[u8], from: usize, end: usize) -> (k: usize)
    requires
        from <= end <= s@.len(),
    ensures
        k == space_before(s@, from as int, end as int),
        from + k <= end,
{
    if end - from >= 1 && is_space_byte(s[end - 1]) {
        1
    } else if end - from >= 2 && s[end - 2] == 0xc2 && (s[end - 1] == 0x85 || s[end - 1] == 0xa0) {
        2
    } else if end - from >= 3 && is_wide_space(s[end - 3], s[end - 2], s[end - 1]) {
        3
    } else {
        0
    }
}

/// Whether the three bytes encode a white space character.
pub fn is_wide_space(a: u8, b: u8, c: u8) -> (space: bool)
    ensures
        space == is_space_triple(a, b, c),
{
    (a == 0xe1 && b == 0x9a && c == 0x80) || (a == 0xe2 && b == 0x80 && ((0x80 <= c && c <= 0x8a)
        || c == 0xa8 || c == 0xa9 || c == 0xaf)) || (a == 0xe2 && b == 0x81 && c == 0x9f) || (a == 0xe3
        && b == 0x80 && c == 0x80)
}

/// The bounds of `s` without leading and trailing white space characters.
pub fn trim(s: &[u8]) -> (bounds: (usize, usize))
    ensures
        bounds.0 <= bounds.1 <= s@.len(),
        s@.subrange(bounds.0 as int, bounds.1 as int) == trimmed(s@),
{
    let mut start: usize = 0;
    let mut more = true;
    while more
        invariant
            start <= s.len(),
            skip_spaces(s@, start as int) == skip_spaces(s@, 0),
            !more ==> skip_spaces(s@, start as int) == start,
        decreases s.len() - start + if more { 1int } else { 0int },
    {
        let k = if start < s.len() {
            space_len_at(s, start)
        } else {
            0
        };
        if k == 0 {
            more = false;
        } else {
            start += k;
        }
    }
    let mut end: usize = s.len();
    let mut more = true;
    while more
        invariant
            start <= end <= s.len(),
            drop_spaces(s@, start as int, end as int) == drop_spaces(
                s@,
                start as int,
                s@.len() as int,
            ),
            !more ==> drop_spaces(s@, start as int, end as int) == end,
        decreases end - start + if more { 1int } else { 0int },
    {
        let k = if end > start {
            space_len_before(s, start, end)
        } else {
            0
        };
        if k == 0 {
            more = false;
        } else {
            end -= k;
        }
    }
    (start, end)
}

/// Whether `b` is ASCII white space.
pub fn is_space_byte(b: u8) -> (space: bool)
    ensures
        space == is_space(b),
{
    b == 32 || (9 <= b && b <= 13)
}

/// The index of the first occurrence of `b` in `s` from `from` on, or the
/// length of `s`.
pub fn find_byte(s: &[u8], b: u8, from: usize) -> (at: usize)
    requires
        from <= s@.len(),
    ensures
        at == find(s@, b, from as int),
        from <= at <= s@.len(),
        at < s@.len() ==> s@[at as int] == b,
{
    let mut i: usize = from;
    while i < s.len() && s[i] != b
        invariant
            from <= i <= s.len(),
            find(s@, b, i as int) == find(s@, b, from as int),
        decreases s.len() - i,
    {
        i += 1;
    }
    i
}

/// The lower-case form of an ASCII letter; any other byte is itself.
pub fn lower_byte(b: u8) -> (l: u8)
    ensures
        l == lower(b),
{
    if 65 <= b && b <= 90 {
        b + 32
    } else {
        b
    }
}

/// Whether two byte strings are equal up to the case of ASCII letters.
pub fn eq_ignore_case(a: &[u8], b: &[u8]) -> (same: bool)
    ensures
        same == same_ignoring_case(a@, b@),
{
    if a.len() != b.len() {
        return false;
    }
    let mut i: usize = 0;
    while i < a.len()
        invariant
            i <= a.len(),
            a.len() == b.len(),
            forall|k: int| 0 <= k < i ==> lower(#[trigger] a@[k]) == lower(b@[k]),
        decreases a.len() - i,
    {
        if lower_byte(a[i]) != lower_byte(b[i]) {
            return false;
        }
        i += 1;
    }
    true
}

/// A byte string with its ASCII letters in lower case.
pub open spec fn lowered(s: Seq<u8>) -> Seq<u8> {
    Seq::new(s.len(), |i: int| lower(s[i]))
}

/// The bytes `s` with the ASCII letters in lower case.
pub fn to_lower(s: &[u8]) -> (out: Vec<u8>)
    ensures
        out@ == lowered(s@),
{
    let mut out: Vec<u8> = Vec::new();
    let mut i: usize = 0;
    while i < s.len()
        invariant
            i <= s.len(),
            out@.len() == i,
            forall|k: int| 0 <= k < i ==> (#[trigger] out@[k]) == lower(s@[k]),
        decreases s.len() - i,
    {
        out.push(lower_byte(s[i]));
        i += 1;
    }
    assert(out@ =~= lowered(s@));
    out
}

/// Appends the bytes of `s`.
pub fn push_bytes(out: &mut Vec<u8>, s: &[u8])
    ensures
        final(out)@ == old(out)@ + s@,
{
    out.extend_from_slice(s);
    assert(out@ =~= old(out)@ + s@);
}

/// The bytes of a string.
pub open spec fn string_bytes(s: String) -> Seq<u8> {
    vstd::utf8::encode_utf8(s@)
}

/// Appends the bytes of the string `s`.
pub fn push_string(out: &mut Vec<u8>, s: &String)
    ensures
        final(out)@ == old(out)@ + string_bytes(*s),
{
    push_bytes(out, s.as_str().as_bytes());
}

/// The end of the line that starts at `from`: just behind its line feed, or
/// the end of `data` where no line feed follows.
pub open spec fn line_end(data: Seq<u8>, from: int) -> int {
    let at = find(data, 10, from);
    if at < data.len() {
        at + 1
    } else {
        data.len() as int
    }
}

/// The start of field `k` of a line whose fields are separated by `sep`; one
/// more than the length of the line if it has no such field.
pub open spec fn field_start(line: Seq<u8>, sep: u8, k: nat) -> int
    decreases k,
{
    if k == 0 {
        0
    } else {
        let before = field_start(line, sep, (k - 1) as nat);
        if before > line.len() {
            before
        } else {
            let at = find(line, sep, before);
            if at < line.len() {
                at + 1
            } else {
                (line.len() + 1) as int
            }
        }
    }
}

/// Whether the line has a field `k`.
pub open spec fn has_field(line: Seq<u8>, sep: u8, k: nat) -> bool {
    field_start(line, sep, k) <= line.len()
}

/// Field `k` of a line, up to the next separator.
pub open spec fn field(line: Seq<u8>, sep: u8, k: nat) -> Seq<u8> {
    line.subrange(field_start(line, sep, k), find(line, sep, field_start(line, sep, k)))
}

/// Everything from the start of field `k` to the end of the line.
pub open spec fn rest_from_field(line: Seq<u8>, sep: u8, k: nat) -> Seq<u8> {
    line.subrange(field_start(line, sep, k), line.len() as int)
}

/// A field starts within the line or just behind it, and a line with a field
/// has all fields before it.
pub proof fn lemma_field_start(line: Seq<u8>, sep: u8, k: nat)
    ensures
        0 <= field_start(line, sep, k) <= line.len() + 1,
        has_field(line, sep, k) ==> forall|j: nat| j <= k ==> has_field(line, sep, j),
    decreases k,
{
    if k > 0 {
        lemma_field_start(line, sep, (k - 1) as nat);
        let before = field_start(line, sep, (k - 1) as nat);
        if before <= line.len() {
            lemma_find_bounds(line, sep, before);
        }
        if has_field(line, sep, k) {
            assert forall|j: nat| j <= k implies has_field(line, sep, j) by {
                if j < k {
                    assert(has_field(line, sep, (k - 1) as nat));
                }
            }
        }
    }
}

/// In a line with a field `last`, every field up to it starts inside the
/// line, and every field before it ends at a separator.
pub proof fn lemma_fields(line: Seq<u8>, sep: u8, last: nat)
    requires
        has_field(line, sep, last),
    ensures
        forall|k: nat| k <= last ==> 0 <= #[trigger] field_start(line, sep, k) <= line.len(),
        forall|k: nat|
            k < last ==> (#[trigger] field_start(line, sep, k)) <= find(
                line,
                sep,
                field_start(line, sep, k),
            ) < line.len(),
    decreases last,
{
    lemma_field_start(line, sep, last);
    if last > 0 {
        let before = (last - 1) as nat;
        assert(has_field(line, sep, before));
        lemma_fields(line, sep, before);
        lemma_find_bounds(line, sep, field_start(line, sep, before));
        assert forall|k: nat| k < last implies (#[trigger] field_start(line, sep, k)) <= find(
            line,
            sep,
            field_start(line, sep, k),
        ) < line.len() by {
            if k == before {
            }
        }
    }
}

/// The starts of the first `count` fields of a line, if it has that many.
pub fn field_starts(line: &[u8], sep: u8, count: usize) -> (starts: Option<Vec<usize>>)
    requires
        count > 0,
    ensures
        starts is Some <==> has_field(line@, sep, (count - 1) as nat),
        starts matches Some(v) ==> v@.len() == count && forall|k: int|
            0 <= k < count ==> (#[trigger] v@[k]) == field_start(line@, sep, k as nat),
{
    let mut v: Vec<usize> = Vec::new();
    v.push(0);
    let mut k: usize = 1;
    while k < count
        invariant
            1 <= k <= count,
            v@.len() == k,
            forall|j: int| 0 <= j < k ==> (#[trigger] v@[j]) == field_start(line@, sep, j as nat),
            v@[k - 1] <= line@.len(),
        decreases count - k,
    {
        let before = v[k - 1];
        let at = find_byte(line, sep, before);
        if at >= line.len() {
            proof {
                assert(field_start(line@, sep, k as nat) > line@.len());
                lemma_field_start(line@, sep, (count - 1) as nat);
                if has_field(line@, sep, (count - 1) as nat) {
                    assert(has_field(line@, sep, k as nat));
                }
            }
            return None;
        }
        v.push(at + 1);
        k += 1;
    }
    Some(v)
}

/// The string that a byte string encodes. Wraps `String::from_utf8` of the
/// standard library: the result is a string exactly when the bytes are valid
/// UTF-8, and it then holds the characters that they encode.
#[verifier::external_body]
pub(crate) fn string_from_utf8(bytes: &[u8]) -> (s: Option<String>)
    ensures
        s is Some <==> vstd::utf8::valid_utf8(bytes@),
        s matches Some(t) ==> t@ == vstd::utf8::decode_utf8(bytes@),
{
    String::from_utf8(bytes.to_vec()).ok()
}

/// The index of the last occurrence of `b` in `s` before `end` and not before
/// `from`; `from - 1` if there is none.
pub open spec fn find_last(s: Seq<u8>, b: u8, from: int, end: int) -> int
    decreases end - from,
{
    if end <= from {
        from - 1
    } else if s[end - 1] == b {
        end - 1
    } else {
        find_last(s, b, from, end - 1)
    }
}

/// What is found last lies in the range searched and is the byte sought.
pub proof fn lemma_find_last(s: Seq<u8>, b: u8, from: int, end: int)
    requires
        0 <= from,
        end <= s.len(),
    ensures
        from - 1 <= find_last(s, b, from, end),
        find_last(s, b, from, end) < end || end <= from,
        find_last(s, b, from, end) >= from ==> s[find_last(s, b, from, end)] == b,
    decreases end - from,
{
    if end > from && s[end - 1] != b {
        lemma_find_last(s, b, from, end - 1);
    }
}

/// What is found last before `end` does not depend on what follows `limit`.
pub proof fn lemma_find_last_prefix(s: Seq<u8>, b: u8, limit: int, end: int)
    requires
        0 <= end <= limit <= s.len(),
    ensures
        find_last(s.subrange(0, limit), b, 0, end) == find_last(s, b, 0, end),
    decreases end,
{
    if end > 0 {
        assert(s.subrange(0, limit)[end - 1] == s[end - 1]);
        if s[end - 1] != b {
            lemma_find_last_prefix(s, b, limit, end - 1);
        }
    }
}

/// The index of the last occurrence of `b` in `s` from `from` on, if any.
pub fn find_last_byte(s: &[u8], b: u8, from: usize) -> (at: Option<usize>)
    requires
        from <= s@.len(),
    ensures
        match at {
            Some(i) => from <= i < s@.len() && i == find_last(s@, b, from as int, s@.len() as int),
            None => find_last(s@, b, from as int, s@.len() as int) == from - 1,
        },
{
    let mut end: usize = s.len();
    while end > from
        invariant
            from <= end <= s.len(),
            find_last(s@, b, from as int, end as int) == find_last(
                s@,
                b,
                from as int,
                s@.len() as int,
            ),
        decreases end - from,
    {
        if s[end - 1] == b {
            return Some(end - 1);
        }
        end -= 1;
    }
    None
}

} // verus!
