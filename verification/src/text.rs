//! Text: decimal numerals, searching, splitting, ordering.

use vstd::prelude::*;

verus! {

/// `String::push`: the character is appended, nothing else changes.
pub assume_specification[ String::push ](s: &mut String, c: char)
    ensures
        final(s)@ == old(s)@.push(c),
;

/// The decimal digit `d`, for `d < 10`.
pub open spec fn digit_char(d: nat) -> char {
    (48 + d) as char
}

/// The decimal numeral of `n`, without leading zeros.
pub open spec fn decimal(n: nat) -> Seq<char>
    decreases n,
{
    if n < 10 {
        seq![digit_char(n)]
    } else {
        decimal(n / 10).push(digit_char(n % 10))
    }
}

/// The decimal numeral of `n`, with a leading `-` when it is negative.
pub open spec fn signed_decimal(n: int) -> Seq<char> {
    if n < 0 {
        seq!['-'] + decimal((-n) as nat)
    } else {
        decimal(n as nat)
    }
}

/// Every character is ASCII.
pub open spec fn ascii_only(s: Seq<char>) -> bool {
    forall|i: int| 0 <= i < s.len() ==> (#[trigger] s[i] as nat) < 128
}

/// An ASCII capital as its small letter, any other character as it is.
pub open spec fn ascii_lower(c: char) -> char {
    if 'A' <= c <= 'Z' {
        (c as nat + 32) as char
    } else {
        c
    }
}

/// The text with ASCII capitals made small.
pub open spec fn ascii_lowercase(s: Seq<char>) -> Seq<char> {
    s.map_values(|c: char| ascii_lower(c))
}

/// What `str::to_lowercase` makes of a text.
pub uninterp spec fn lowercase(s: Seq<char>) -> Seq<char>;

/// `str::to_lowercase`, which maps characters as Unicode defines it. On ASCII text
/// that is letter by letter.
#[verifier::external_body]
pub(crate) fn to_lowercase(s: &str) -> (r: String)
    ensures
        r@ == lowercase(s@),
        ascii_only(s@) ==> r@ == ascii_lowercase(s@),
{
    s.to_lowercase()
}

/// `n` in decimal.
pub fn u64_text(n: u64) -> (r: String)
    ensures
        r@ == decimal(n as nat),
    decreases n,
{
    let mut s: String = if n < 10 {
        String::new()
    } else {
        u64_text(n / 10)
    };
    let digit: u8 = (n % 10) as u8;
    s.push((48u8 + digit) as char);
    proof {
        if n < 10 {
            assert(s@ =~= decimal(n as nat));
        }
    }
    s
}

/// `n` in decimal, with a sign when negative.
pub fn i64_text(n: i64) -> (r: String)
    ensures
        r@ == signed_decimal(n as int),
{
    if n < 0 {
        let magnitude: u64 = (-(n + 1)) as u64 + 1;
        let mut s: String = String::new();
        s.push('-');
        let digits: String = u64_text(magnitude);
        s.append(digits.as_str());
        assert(s@ =~= signed_decimal(n as int));
        s
    } else {
        u64_text(n as u64)
    }
}

/// The texts of a list of strings.
pub open spec fn texts(list: Seq<String>) -> Seq<Seq<char>> {
    list.map_values(|s: String| s@)
}

/// Whether two texts are the same.
pub fn text_eq(a: &str, b: &str) -> (r: bool)
    ensures
        r == (a@ == b@),
{
    let left: String = a.to_owned();
    let right: String = b.to_owned();
    left == right
}

/// The characters of a text.
pub fn chars_of(s: &str) -> (r: Vec<char>)
    ensures
        r@ == s@,
{
    let mut out: Vec<char> = Vec::new();
    for c in it: s.chars()
        invariant
            it.seq() == s@,
            out@ == s@.take(it.index()),
    {
        out.push(c);
        assert(out@ =~= s@.take(it.index() + 1));
    }
    assert(out@ =~= s@);
    out
}

/// The text of a run of characters.
pub fn text_of(chars: &Vec<char>, from: usize, to: usize) -> (r: String)
    requires
        from <= to <= chars.len(),
    ensures
        r@ == chars@.subrange(from as int, to as int),
{
    let mut s: String = String::new();
    let mut i: usize = from;
    while i < to
        invariant
            from <= i <= to <= chars.len(),
            s@ == chars@.subrange(from as int, i as int),
        decreases to - i,
    {
        s.push(chars[i]);
        i = i + 1;
        assert(s@ =~= chars@.subrange(from as int, i as int));
    }
    s
}

/// `pattern` stands in `s` from `i` on.
pub open spec fn occurs_at(s: Seq<char>, pattern: Seq<char>, i: int) -> bool {
    0 <= i && i + pattern.len() <= s.len() && s.subrange(i, i + pattern.len()) == pattern
}

/// `pattern` stands somewhere in `s`.
pub open spec fn contains_text(s: Seq<char>, pattern: Seq<char>) -> bool {
    exists|i: int| #[trigger] occurs_at(s, pattern, i)
}

/// A text contains what stands in its middle.
pub proof fn lemma_contains_middle(before: Seq<char>, middle: Seq<char>, after: Seq<char>)
    ensures
        contains_text(before + middle + after, middle),
{
    let all = before + middle + after;
    assert(all.subrange(before.len() as int, before.len() as int + middle.len()) =~= middle);
    assert(occurs_at(all, middle, before.len() as int));
}

/// Where `pattern` first stands in `s`, not before `from`.
pub open spec fn find_from(s: Seq<char>, pattern: Seq<char>, from: int) -> Option<int>
    decreases s.len() + 1 - from,
{
    if from < 0 || from + pattern.len() > s.len() {
        None
    } else if occurs_at(s, pattern, from) {
        Some(from)
    } else {
        find_from(s, pattern, from + 1)
    }
}

/// A place that `find_from` gives is one where the pattern stands, and the first.
pub proof fn lemma_find_from(s: Seq<char>, pattern: Seq<char>, from: int)
    requires
        0 <= from,
    ensures
        match find_from(s, pattern, from) {
            Some(at) => {
                &&& from <= at
                &&& occurs_at(s, pattern, at)
                &&& forall|i: int| from <= i < at ==> !(#[trigger] occurs_at(s, pattern, i))
            },
            None => forall|i: int| from <= i ==> !(#[trigger] occurs_at(s, pattern, i)),
        },
    decreases s.len() + 1 - from,
{
    if from + pattern.len() <= s.len() && !occurs_at(s, pattern, from) {
        lemma_find_from(s, pattern, from + 1);
    }
}

/// What stands before the first `pattern`; everything where it does not occur.
pub open spec fn until(s: Seq<char>, pattern: Seq<char>) -> Seq<char> {
    match find_from(s, pattern, 0) {
        Some(at) => s.take(at),
        None => s,
    }
}

/// The second piece of `s` when it is split at every `key`, up to its first `&`;
/// `None` where `key` does not occur. In a URL that is the value of a parameter.
pub open spec fn parameter(s: Seq<char>, key: Seq<char>) -> Option<Seq<char>> {
    match find_from(s, key, 0) {
        Some(at) => Some(until(until(s.skip(at + key.len()), key), seq!['&'])),
        None => None,
    }
}

fn matches_at(chars: &Vec<char>, pattern: &Vec<char>, at: usize) -> (r: bool)
    requires
        at + pattern.len() <= chars.len(),
    ensures
        r == occurs_at(chars@, pattern@, at as int),
{
    let mut i: usize = 0;
    while i < pattern.len()
        invariant
            i <= pattern.len(),
            at + pattern.len() <= chars.len(),
            forall|k: int| 0 <= k < i ==> chars@[at + k] == #[trigger] pattern@[k],
        decreases pattern.len() - i,
    {
        if chars[at + i] != pattern[i] {
            assert(chars@.subrange(at as int, at + pattern.len())[i as int] != pattern@[i as int]);
            return false;
        }
        i = i + 1;
    }
    assert(chars@.subrange(at as int, at + pattern.len()) =~= pattern@);
    true
}

/// Where `pattern` first stands, not before `from`.
pub fn find(chars: &Vec<char>, pattern: &Vec<char>, from: usize) -> (r: Option<usize>)
    ensures
        match r {
            Some(at) => find_from(chars@, pattern@, from as int) == Some(at as int)
                && at + pattern.len() <= chars.len(),
            None => find_from(chars@, pattern@, from as int) is None,
        },
{
    let mut i: usize = from;
    while pattern.len() <= chars.len() && i <= chars.len() - pattern.len()
        invariant
            from <= i,
            find_from(chars@, pattern@, from as int) == find_from(chars@, pattern@, i as int),
        decreases chars.len() - i,
    {
        if matches_at(chars, pattern, i) {
            return Some(i);
        }
        if i == chars.len() - pattern.len() {
            assert(find_from(chars@, pattern@, i + 1) is None);
            return None;
        }
        i = i + 1;
    }
    None
}

/// Whether `pattern` stands somewhere in `s`.
pub fn contains(s: &str, pattern: &str) -> (r: bool)
    ensures
        r == contains_text(s@, pattern@),
{
    let chars: Vec<char> = chars_of(s);
    let wanted: Vec<char> = chars_of(pattern);
    let found: Option<usize> = find(&chars, &wanted, 0);
    proof {
        lemma_find_from(s@, pattern@, 0);
    }
    found.is_some()
}

/// The value of a URL parameter: see `parameter`.
pub fn url_parameter(s: &str, key: &str) -> (r: Option<String>)
    ensures
        match r {
            Some(value) => parameter(s@, key@) == Some(value@),
            None => parameter(s@, key@) is None,
        },
{
    let chars: Vec<char> = chars_of(s);
    let wanted: Vec<char> = chars_of(key);
    match find(&chars, &wanted, 0) {
        None => None,
        Some(at) => {
            let rest: Vec<char> = tail_of(&chars, at + wanted.len());
            let piece: Vec<char> = head_before(&rest, &wanted);
            let mut amp: Vec<char> = Vec::new();
            amp.push('&');
            let value: Vec<char> = head_before(&piece, &amp);
            assert(amp@ =~= seq!['&']);
            let out: String = text_of(&value, 0, value.len());
            assert(out@ =~= value@);
            Some(out)
        },
    }
}

fn tail_of(chars: &Vec<char>, from: usize) -> (r: Vec<char>)
    requires
        from <= chars.len(),
    ensures
        r@ == chars@.skip(from as int),
{
    let mut out: Vec<char> = Vec::new();
    let mut i: usize = from;
    while i < chars.len()
        invariant
            from <= i <= chars.len(),
            out@ == chars@.subrange(from as int, i as int),
        decreases chars.len() - i,
    {
        out.push(chars[i]);
        i = i + 1;
        assert(out@ =~= chars@.subrange(from as int, i as int));
    }
    assert(out@ =~= chars@.skip(from as int));
    out
}

/// What stands before the first `pattern`.
fn head_before(chars: &Vec<char>, pattern: &Vec<char>) -> (r: Vec<char>)
    ensures
        r@ == until(chars@, pattern@),
{
    let end: usize = match find(chars, pattern, 0) {
        Some(at) => at,
        None => chars.len(),
    };
    let mut out: Vec<char> = Vec::new();
    let mut i: usize = 0;
    while i < end
        invariant
            i <= end <= chars.len(),
            out@ == chars@.take(i as int),
        decreases end - i,
    {
        out.push(chars[i]);
        i = i + 1;
        assert(out@ =~= chars@.take(i as int));
    }
    assert(chars@.take(chars.len() as int) =~= chars@);
    out
}

/// A decimal digit.
pub open spec fn is_digit(c: char) -> bool {
    '0' <= c <= '9'
}

/// All characters are decimal digits.
pub open spec fn all_digits(s: Seq<char>) -> bool {
    forall|i: int| 0 <= i < s.len() ==> is_digit(#[trigger] s[i])
}

/// The number that a run of decimal digits stands for.
pub open spec fn digits_value(s: Seq<char>) -> nat
    decreases s.len(),
{
    if s.len() == 0 {
        0
    } else {
        digits_value(s.drop_last()) * 10 + (s.last() as nat - 48) as nat
    }
}

/// The digits of a numeral: what follows an optional plus sign.
pub open spec fn after_plus(s: Seq<char>) -> Seq<char> {
    if s.len() > 0 && s[0] == '+' {
        s.skip(1)
    } else {
        s
    }
}

/// The number that `s` stands for as an unsigned decimal: an optional plus sign and
/// at least one digit, nothing else, and no more than `max`.
pub open spec fn unsigned_value(s: Seq<char>, max: nat) -> Option<nat> {
    let digits = after_plus(s);
    if digits.len() > 0 && all_digits(digits) && digits_value(digits) <= max {
        Some(digits_value(digits))
    } else {
        None
    }
}

/// More digits make no smaller number.
proof fn lemma_digits_grow(s: Seq<char>, n: int)
    requires
        0 <= n <= s.len(),
        all_digits(s),
    ensures
        digits_value(s.take(n)) <= digits_value(s),
    decreases s.len() - n,
{
    if n < s.len() {
        let longer = s.take(n + 1);
        assert(longer.drop_last() =~= s.take(n));
        assert(is_digit(s[n]));
        lemma_digits_grow(s, n + 1);
    } else {
        assert(s.take(n) =~= s);
    }
}

/// Reads an unsigned decimal no larger than `max`: see `unsigned_value`.
pub fn parse_unsigned(s: &str, max: u64) -> (r: Option<u64>)
    ensures
        match r {
            Some(n) => unsigned_value(s@, max as nat) == Some(n as nat),
            None => unsigned_value(s@, max as nat) is None,
        },
{
    let chars: Vec<char> = chars_of(s);
    let start: usize = if chars.len() > 0 && chars[0] == '+' {
        1
    } else {
        0
    };
    let ghost digits = after_plus(s@);
    assert(digits =~= chars@.skip(start as int));
    if start == chars.len() {
        return None;
    }
    let mut i: usize = start;
    let mut value: u64 = 0;
    assert(digits.take(0) =~= seq![]);
    while i < chars.len()
        invariant
            start <= i <= chars.len(),
            start < chars.len(),
            chars@ == s@,
            digits == after_plus(s@),
            digits == chars@.skip(start as int),
            value <= max,
            value == digits_value(digits.take(i - start)),
            forall|k: int| 0 <= k < i - start ==> is_digit(#[trigger] digits[k]),
        decreases chars.len() - i,
    {
        let c: char = chars[i];
        let ghost n = i - start;
        assert(c == digits[n]);
        if !('0' <= c && c <= '9') {
            assert(!is_digit(digits[n]));
            return None;
        }
        let digit: u64 = (c as u32 - 48) as u64;
        assert(digits.take(n + 1).drop_last() =~= digits.take(n));
        let scaled: Option<u64> = match value.checked_mul(10) {
            Some(tens) => tens.checked_add(digit),
            None => None,
        };
        match scaled {
            Some(next) if next <= max => {
                value = next;
            },
            _ => {
                proof {
                    if all_digits(digits) {
                        lemma_digits_grow(digits, n + 1);
                    }
                }
                return None;
            },
        }
        i = i + 1;
    }
    assert(digits.take(digits.len() as int) =~= digits);
    Some(value)
}

/// A white-space character: one with the Unicode property `White_Space`.
pub open spec fn is_space(c: char) -> bool {
    let n = c as nat;
    ||| 9 <= n <= 13
    ||| n == 0x20
    ||| n == 0x85
    ||| n == 0xa0
    ||| n == 0x1680
    ||| 0x2000 <= n <= 0x200a
    ||| n == 0x2028
    ||| n == 0x2029
    ||| n == 0x202f
    ||| n == 0x205f
    ||| n == 0x3000
}

fn space(c: char) -> (r: bool)
    ensures
        r == is_space(c),
{
    let n: u32 = c as u32;
    (9 <= n && n <= 13) || n == 0x20 || n == 0x85 || n == 0xa0 || n == 0x1680 || (0x2000 <= n && n
        <= 0x200a) || n == 0x2028 || n == 0x2029 || n == 0x202f || n == 0x205f || n == 0x3000
}

/// The text without white space at its front.
pub open spec fn trim_front(s: Seq<char>) -> Seq<char>
    decreases s.len(),
{
    if s.len() > 0 && is_space(s[0]) {
        trim_front(s.drop_first())
    } else {
        s
    }
}

/// The text without white space at its end.
pub open spec fn trim_back(s: Seq<char>) -> Seq<char>
    decreases s.len(),
{
    if s.len() > 0 && is_space(s.last()) {
        trim_back(s.drop_last())
    } else {
        s
    }
}

/// The text without white space at its ends.
pub open spec fn trimmed(s: Seq<char>) -> Seq<char> {
    trim_back(trim_front(s))
}

/// The text without white space at its ends.
pub fn trim(s: &str) -> (r: String)
    ensures
        r@ == trimmed(s@),
{
    let chars: Vec<char> = chars_of(s);
    let mut from: usize = 0;
    assert(chars@.skip(0) =~= chars@);
    while from < chars.len() && space(chars[from])
        invariant
            from <= chars.len(),
            trim_front(chars@) == trim_front(chars@.skip(from as int)),
        decreases chars.len() - from,
    {
        assert(chars@.skip(from as int).drop_first() =~= chars@.skip(from + 1));
        from = from + 1;
    }
    let ghost front = chars@.skip(from as int);
    assert(trim_front(chars@) == front);
    let mut to: usize = chars.len();
    assert(front =~= chars@.subrange(from as int, to as int));
    while to > from && space(chars[to - 1])
        invariant
            from <= to <= chars.len(),
            trim_back(front) == trim_back(chars@.subrange(from as int, to as int)),
        decreases to,
    {
        assert(chars@.subrange(from as int, to as int).drop_last() =~= chars@.subrange(
            from as int,
            to - 1,
        ));
        to = to - 1;
    }
    text_of(&chars, from, to)
}

/// How many characters there are before the first white space.
pub open spec fn word_len(s: Seq<char>) -> nat
    decreases s.len(),
{
    if s.len() == 0 || is_space(s[0]) {
        0
    } else {
        1 + word_len(s.drop_first())
    }
}

/// The words of a text: its runs of characters other than white space.
pub open spec fn words(s: Seq<char>) -> Seq<Seq<char>>
    decreases s.len(),
{
    if s.len() == 0 {
        seq![]
    } else if is_space(s[0]) {
        words(s.drop_first())
    } else {
        let n = word_len(s) as int;
        if n >= s.len() {
            seq![s]
        } else {
            seq![s.take(n)] + words(s.skip(n))
        }
    }
}

/// The characters of a list of runs.
pub open spec fn runs(list: Seq<Vec<char>>) -> Seq<Seq<char>> {
    list.map_values(|v: Vec<char>| v@)
}

/// The words of a text.
pub fn words_of(chars: &Vec<char>) -> (r: Vec<Vec<char>>)
    ensures
        runs(r@) == words(chars@),
{
    let mut out: Vec<Vec<char>> = Vec::new();
    let mut i: usize = 0;
    assert(chars@.skip(0) =~= chars@);
    assert(runs(out@) + words(chars@) =~= words(chars@));
    while i < chars.len()
        invariant
            i <= chars.len(),
            runs(out@) + words(chars@.skip(i as int)) == words(chars@),
        decreases chars.len() - i,
    {
        let ghost rest = chars@.skip(i as int);
        if space(chars[i]) {
            assert(rest.drop_first() =~= chars@.skip(i + 1));
            i = i + 1;
        } else {
            let start: usize = i;
            let mut word: Vec<char> = Vec::new();
            assert(rest.take(0) =~= word@);
            assert(rest.skip(0) =~= rest);
            while i < chars.len() && !space(chars[i])
                invariant
                    start <= i <= chars.len(),
                    rest == chars@.skip(start as int),
                    word@ == rest.take(i - start),
                    word_len(rest) == (i - start) + word_len(rest.skip(i - start)),
                decreases chars.len() - i,
            {
                word.push(chars[i]);
                let ghost n = i - start;
                assert(rest.skip(n)[0] == chars@[i as int]);
                assert(rest.skip(n).drop_first() =~= rest.skip(n + 1));
                assert(word@ =~= rest.take(n + 1));
                i = i + 1;
            }
            let ghost n = i - start;
            let ghost before = runs(out@);
            assert(word_len(rest) == n);
            assert(rest[0] == chars@[start as int]);
            assert(rest.skip(n) =~= chars@.skip(i as int));
            let ghost taken = word@;
            out.push(word);
            assert(runs(out@) =~= before.push(taken));
            if i == chars.len() {
                assert(taken =~= rest);
                assert(words(chars@.skip(i as int)) =~= seq![]);
            }
            assert(before + words(rest) =~= before.push(taken) + words(chars@.skip(i as int)));
        }
    }
    assert(words(chars@.skip(chars.len() as int)) =~= seq![]);
    assert(runs(out@) + words(chars@.skip(chars.len() as int)) =~= runs(out@));
    out
}

/// A line without the carriage return that may stand before its line feed.
pub open spec fn strip_return(s: Seq<char>) -> Seq<char> {
    if s.len() > 0 && s.last() == '\r' {
        s.drop_last()
    } else {
        s
    }
}

/// How many characters there are before the first line feed.
pub open spec fn line_len(s: Seq<char>) -> nat
    decreases s.len(),
{
    if s.len() == 0 || s[0] == '\n' {
        0
    } else {
        1 + line_len(s.drop_first())
    }
}

/// A line is no longer than the text it is in.
proof fn lemma_line_len(s: Seq<char>)
    ensures
        line_len(s) <= s.len(),
        line_len(s) < s.len() ==> s[line_len(s) as int] == '\n',
    decreases s.len(),
{
    if s.len() > 0 && s[0] != '\n' {
        lemma_line_len(s.drop_first());
    }
}

/// The lines of a text. Each ends with a line feed, which a carriage return may
/// precede; the last may end with the text.
pub open spec fn lines(s: Seq<char>) -> Seq<Seq<char>>
    decreases s.len(),
{
    let n = line_len(s) as int;
    if s.len() == 0 {
        seq![]
    } else if n >= s.len() {
        seq![s]
    } else {
        seq![strip_return(s.take(n))] + lines(s.skip(n + 1))
    }
}

/// The lines of a text.
pub fn lines_of(chars: &Vec<char>) -> (r: Vec<Vec<char>>)
    ensures
        runs(r@) == lines(chars@),
{
    let mut out: Vec<Vec<char>> = Vec::new();
    let mut i: usize = 0;
    assert(chars@.skip(0) =~= chars@);
    assert(runs(out@) + lines(chars@) =~= lines(chars@));
    while i < chars.len()
        invariant
            i <= chars.len(),
            runs(out@) + lines(chars@.skip(i as int)) == lines(chars@),
        decreases chars.len() - i,
    {
        let ghost rest = chars@.skip(i as int);
        let start: usize = i;
        let mut line: Vec<char> = Vec::new();
        assert(rest.take(0) =~= line@);
        assert(rest.skip(0) =~= rest);
        while i < chars.len() && chars[i] != '\n'
            invariant
                start <= i <= chars.len(),
                rest == chars@.skip(start as int),
                line@ == rest.take(i - start),
                line_len(rest) == (i - start) + line_len(rest.skip(i - start)),
            decreases chars.len() - i,
        {
            line.push(chars[i]);
            let ghost n = i - start;
            assert(rest.skip(n)[0] == chars@[i as int]);
            assert(rest.skip(n).drop_first() =~= rest.skip(n + 1));
            assert(line@ =~= rest.take(n + 1));
            i = i + 1;
        }
        let ghost n = i - start;
        let ghost before = runs(out@);
        assert(line_len(rest) == n) by {
            if i < chars.len() {
                assert(rest.skip(n)[0] == chars@[i as int]);
            }
        }
        if i < chars.len() {
            if line.len() > 0 && line[line.len() - 1] == '\r' {
                line.pop();
            }
            let ghost taken = line@;
            assert(taken =~= strip_return(rest.take(n)));
            assert(rest.skip(n + 1) =~= chars@.skip(i + 1));
            out.push(line);
            assert(runs(out@) =~= before.push(taken));
            assert(before + lines(rest) =~= before.push(taken) + lines(chars@.skip(i + 1)));
            i = i + 1;
        } else {
            let ghost taken = line@;
            assert(taken =~= rest);
            out.push(line);
            assert(runs(out@) =~= before.push(taken));
            assert(lines(chars@.skip(i as int)) =~= seq![]);
            assert(before + lines(rest) =~= before.push(taken) + lines(chars@.skip(i as int)));
        }
    }
    assert(lines(chars@.skip(chars.len() as int)) =~= seq![]);
    assert(runs(out@) + lines(chars@.skip(chars.len() as int)) =~= runs(out@));
    out
}

/// `prefix` stands at the front of `s`.
pub open spec fn has_prefix(s: Seq<char>, prefix: Seq<char>) -> bool {
    occurs_at(s, prefix, 0)
}

/// What follows `prefix` at the front of `s`, `None` where it does not stand there.
pub open spec fn after_prefix(s: Seq<char>, prefix: Seq<char>) -> Option<Seq<char>> {
    if has_prefix(s, prefix) {
        Some(s.skip(prefix.len() as int))
    } else {
        None
    }
}

/// Whether `prefix` stands at the front of `chars`.
pub fn starts_with(chars: &Vec<char>, prefix: &Vec<char>) -> (r: bool)
    ensures
        r == has_prefix(chars@, prefix@),
{
    prefix.len() <= chars.len() && matches_at(chars, prefix, 0)
}

/// What follows `prefix` at the front of `chars`.
pub fn strip_prefix(chars: &Vec<char>, prefix: &Vec<char>) -> (r: Option<Vec<char>>)
    ensures
        match r {
            Some(rest) => after_prefix(chars@, prefix@) == Some(rest@),
            None => after_prefix(chars@, prefix@) is None,
        },
{
    if starts_with(chars, prefix) {
        Some(tail_of(chars, prefix.len()))
    } else {
        None
    }
}

/// What follows the last `c`, `None` where it does not occur.
pub open spec fn after_last(s: Seq<char>, c: char) -> Option<Seq<char>>
    decreases s.len(),
{
    if s.len() == 0 {
        None
    } else if s.last() == c {
        Some(seq![])
    } else {
        match after_last(s.drop_last(), c) {
            Some(rest) => Some(rest.push(s.last())),
            None => None,
        }
    }
}

/// What follows the last `c`.
pub fn rest_after_last(chars: &Vec<char>, c: char) -> (r: Option<Vec<char>>)
    ensures
        match r {
            Some(rest) => after_last(chars@, c) == Some(rest@),
            None => after_last(chars@, c) is None,
        },
{
    let mut i: usize = chars.len();
    while i > 0 && chars[i - 1] != c
        invariant
            i <= chars.len(),
            forall|k: int| i <= k < chars.len() ==> #[trigger] chars@[k] != c,
        decreases i,
    {
        i = i - 1;
    }
    if i == 0 {
        proof {
            lemma_no_last(chars@, c);
        }
        return None;
    }
    let rest: Vec<char> = tail_of(chars, i);
    proof {
        lemma_after_last(chars@, c, i as int);
    }
    Some(rest)
}

proof fn lemma_no_last(s: Seq<char>, c: char)
    requires
        forall|k: int| 0 <= k < s.len() ==> #[trigger] s[k] != c,
    ensures
        after_last(s, c) is None,
    decreases s.len(),
{
    if s.len() > 0 {
        lemma_no_last(s.drop_last(), c);
    }
}

proof fn lemma_after_last(s: Seq<char>, c: char, n: int)
    requires
        0 < n <= s.len(),
        s[n - 1] == c,
        forall|k: int| n <= k < s.len() ==> #[trigger] s[k] != c,
    ensures
        after_last(s, c) == Some(s.skip(n)),
    decreases s.len(),
{
    if n == s.len() {
        assert(s.skip(n) =~= seq![]);
    } else {
        lemma_after_last(s.drop_last(), c, n);
        assert(s.drop_last().skip(n).push(s.last()) =~= s.skip(n));
    }
}

/// `a` comes before `b` in the order of code points: the first place where they differ
/// decides, and a text comes before one that it is the start of.
pub open spec fn text_before(a: Seq<char>, b: Seq<char>) -> bool
    decreases a.len(),
{
    if b.len() == 0 {
        false
    } else if a.len() == 0 {
        true
    } else if a[0] != b[0] {
        a[0] < b[0]
    } else {
        text_before(a.drop_first(), b.drop_first())
    }
}

/// No text comes before itself.
pub proof fn text_order_irreflexive(a: Seq<char>)
    ensures
        !text_before(a, a),
    decreases a.len(),
{
    if a.len() > 0 {
        text_order_irreflexive(a.drop_first());
    }
}

/// The order of texts is transitive.
pub proof fn text_order_transitive(a: Seq<char>, b: Seq<char>, c: Seq<char>)
    requires
        text_before(a, b),
        text_before(b, c),
    ensures
        text_before(a, c),
    decreases a.len(),
{
    if a.len() > 0 && a[0] == b[0] && b[0] == c[0] {
        text_order_transitive(a.drop_first(), b.drop_first(), c.drop_first());
    }
}

/// Of two different texts one comes before the other.
pub proof fn text_order_total(a: Seq<char>, b: Seq<char>)
    ensures
        text_before(a, b) || text_before(b, a) || a == b,
    decreases a.len(),
{
    if a.len() > 0 && b.len() > 0 && a[0] == b[0] {
        text_order_total(a.drop_first(), b.drop_first());
        if a.drop_first() == b.drop_first() {
            assert(a =~= seq![a[0]] + a.drop_first());
            assert(b =~= seq![b[0]] + b.drop_first());
        }
    } else if a.len() == 0 && b.len() == 0 {
        assert(a =~= b);
    }
}

/// Whether `a` comes before `b`.
pub fn text_less(a: &str, b: &str) -> (r: bool)
    ensures
        r == text_before(a@, b@),
{
    let x: Vec<char> = chars_of(a);
    let y: Vec<char> = chars_of(b);
    let mut i: usize = 0;
    assert(x@.skip(0) =~= x@);
    assert(y@.skip(0) =~= y@);
    while i < x.len() && i < y.len() && x[i] == y[i]
        invariant
            i <= x.len(),
            i <= y.len(),
            text_before(x@, y@) == text_before(x@.skip(i as int), y@.skip(i as int)),
        decreases x.len() - i,
    {
        assert(x@.skip(i as int).drop_first() =~= x@.skip(i + 1));
        assert(y@.skip(i as int).drop_first() =~= y@.skip(i + 1));
        i = i + 1;
    }
    if i == y.len() {
        false
    } else if i == x.len() {
        true
    } else {
        x[i] < y[i]
    }
}

/// What stands behind the last separator: nothing of it is a separator, and the rest of the
/// text ends in one.
pub proof fn last_separator_is_found(s: Seq<char>, c: char)
    ensures
        after_last(s, c) is Some <==> s.contains(c),
        after_last(s, c) matches Some(rest) ==> {
            &&& rest.len() < s.len()
            &&& s[s.len() - rest.len() - 1] == c
            &&& rest == s.skip(s.len() - rest.len())
            &&& !rest.contains(c)
        },
    decreases s.len(),
{
    if s.len() > 0 {
        if s.last() == c {
            assert(s.contains(c));
            assert(s.skip(s.len() as int) =~= seq![]);
        } else {
            let front = s.drop_last();
            last_separator_is_found(front, c);
            if front.contains(c) {
                let k = choose|k: int| 0 <= k < front.len() && front[k] == c;
                assert(s[k] == c);
                let rest = after_last(front, c)->0;
                let whole = rest.push(s.last());
                assert(after_last(s, c) == Some(whole));
                assert(whole =~= s.skip(s.len() - whole.len()));
                assert(front[front.len() - rest.len() - 1] == s[s.len() - whole.len() - 1]);
                if whole.contains(c) {
                    let k = choose|k: int| 0 <= k < whole.len() && whole[k] == c;
                    assert(k < rest.len());
                    assert(rest[k] == c);
                }
            }
            if s.contains(c) {
                let k = choose|k: int| 0 <= k < s.len() && s[k] == c;
                assert(front[k] == c);
            }
        }
    }
}

/// A parameter is what stands behind its key, up to the next ampersand or key, or to the
/// end.
pub proof fn parameters_are_read(
    before: Seq<char>,
    key: Seq<char>,
    value: Seq<char>,
    after: Seq<char>,
)
    requires
        key.len() > 0,
        forall|i: int|
            0 <= i < before.len() ==> !(#[trigger] occurs_at(before + key + (value + after), key, i)),
        forall|i: int| 0 <= i < value.len() ==> !(#[trigger] occurs_at(value + after, key, i)),
        !value.contains('&'),
        after.len() == 0 || after[0] == '&' || occurs_at(value + after, key, value.len() as int),
    ensures
        parameter(before + key + (value + after), key) == Some(value),
{
    let s = before + key + (value + after);
    let rest = value + after;
    lemma_find_from(s, key, 0);
    assert(s.subrange(before.len() as int, before.len() as int + key.len()) =~= key);
    assert(occurs_at(s, key, before.len() as int));
    let at = find_from(s, key, 0)->0;
    assert(at == before.len());
    assert(s.skip(at + key.len()) =~= rest);
    lemma_find_from(rest, key, 0);
    let cut = until(rest, key);
    assert(cut.len() >= value.len());
    assert(cut.take(value.len() as int) =~= value);
    let mark = seq!['&'];
    lemma_find_from(cut, mark, 0);
    assert forall|i: int| 0 <= i < value.len() implies !(#[trigger] occurs_at(cut, mark, i)) by {
        if occurs_at(cut, mark, i) {
            assert(cut.subrange(i, i + 1)[0] == '&');
            assert(cut[i] == value[i]);
            assert(value.contains(value[i]));
        }
    }
    if cut.len() > value.len() {
        assert(after.len() > 0);
        assert(cut[value.len() as int] == after[0]);
        if occurs_at(rest, key, value.len() as int) {
            assert(cut.len() <= value.len());
        }
        assert(cut.subrange(value.len() as int, value.len() as int + 1) =~= mark);
        assert(occurs_at(cut, mark, value.len() as int));
    } else {
        assert(cut =~= value);
        assert forall|i: int| 0 <= i implies !(#[trigger] occurs_at(cut, mark, i)) by {
            if occurs_at(cut, mark, i) {
                assert(i < value.len());
            }
        }
    }
    assert(until(cut, mark) =~= value);
}

/// A text without the key has no such parameter.
pub proof fn missing_parameters_are_not_read(s: Seq<char>, key: Seq<char>)
    ensures
        parameter(s, key) is Some <==> contains_text(s, key),
{
    lemma_find_from(s, key, 0);
    if contains_text(s, key) {
        let i = choose|i: int| #[trigger] occurs_at(s, key, i);
        assert(occurs_at(s, key, i));
    }
}

/// A number is read back from its decimal digits, which have no zero ahead.
pub proof fn numbers_are_read_back(n: nat, max: nat)
    ensures
        digits_value(decimal(n)) == n,
        decimal(n).len() > 0,
        all_digits(decimal(n)),
        n > 0 ==> decimal(n)[0] != '0',
        n <= max ==> unsigned_value(decimal(n), max) == Some(n),
        n > max ==> unsigned_value(decimal(n), max) is None,
    decreases n,
{
    if n < 10 {
        let s = decimal(n);
        assert(s.drop_last() =~= seq![]);
        assert(digits_value(s.drop_last()) == 0);
        assert(s.last() as nat == 48 + n);
    } else {
        numbers_are_read_back(n / 10, max);
        let s = decimal(n);
        assert(s.drop_last() =~= decimal(n / 10));
        assert(s.last() as nat == 48 + n % 10);
        assert(s[0] == decimal(n / 10)[0]);
        assert forall|i: int| 0 <= i < s.len() implies is_digit(#[trigger] s[i]) by {
            if i < s.len() - 1 {
                assert(s[i] == decimal(n / 10)[i]);
            }
        }
    }
    assert(is_digit(decimal(n)[0]));
    assert(after_plus(decimal(n)) == decimal(n));
}

/// Digits are worth ten times as much one place further ahead; other texts than digits, with
/// a plus ahead or not, are no numbers.
pub proof fn digits_are_worth_their_place(digits: Seq<char>, digit: char, max: nat)
    requires
        all_digits(digits),
        '0' <= digit <= '9',
        digits.len() > 0,
    ensures
        digits_value(digits.push(digit)) == digits_value(digits) * 10 + (digit as nat - 48),
        unsigned_value(seq!['+'] + digits, max) == unsigned_value(digits, max),
        forall|s: Seq<char>, i: int|
            0 <= i < s.len() && (i > 0 || s[i] != '+') && !('0' <= (#[trigger] s[i]) <= '9')
                ==> unsigned_value(s, max) is None,
        unsigned_value(seq![], max) is None,
        unsigned_value(seq!['+'], max) is None,
{
    assert(digits.push(digit).drop_last() =~= digits);
    assert((seq!['+'] + digits).skip(1) =~= digits);
    assert(is_digit(digits[0]));
    assert(after_plus(digits) == digits);
    assert(seq!['+'].skip(1).len() == 0);
    assert forall|s: Seq<char>, i: int|
        0 <= i < s.len() && (i > 0 || s[i] != '+') && !('0' <= (#[trigger] s[i])
            <= '9') implies unsigned_value(s, max) is None by {
        let rest = after_plus(s);
        if s[0] == '+' {
            assert(rest[i - 1] == s[i]);
        } else {
            assert(rest[i] == s[i]);
        }
    }
}

/// A negative number has a minus ahead of its digits.
pub proof fn signs_stand_ahead(n: int)
    ensures
        n >= 0 ==> signed_decimal(n) == decimal(n as nat),
        n < 0 ==> signed_decimal(n) == seq!['-'] + decimal((-n) as nat),
        n < 10 && n >= 0 ==> decimal(n as nat) == seq![(48 + n) as char],
        n >= 10 ==> decimal(n as nat) == decimal((n / 10) as nat).push((48 + n % 10) as char),
{
}

/// Lower case keeps all characters but the capital letters, which become the small ones.
pub proof fn capitals_become_small(s: Seq<char>, i: int)
    requires
        0 <= i < s.len(),
    ensures
        ascii_lowercase(s).len() == s.len(),
        65 <= s[i] as nat <= 90 ==> ascii_lowercase(s)[i] as nat == s[i] as nat + 32,
        !(65 <= s[i] as nat <= 90) ==> ascii_lowercase(s)[i] == s[i],
{
}

/// Trimming takes the white space off both ends and nothing else.
pub proof fn spaces_are_taken_off_the_ends(before: Seq<char>, core: Seq<char>, after: Seq<char>)
    requires
        forall|i: int| 0 <= i < before.len() ==> is_space(#[trigger] before[i]),
        forall|i: int| 0 <= i < after.len() ==> is_space(#[trigger] after[i]),
        core.len() > 0 ==> !is_space(core[0]) && !is_space(core.last()),
    ensures
        trimmed(before + core + after) == core,
{
    lemma_trim_front(before, core + after);
    assert(before + core + after =~= before + (core + after));
    if core.len() > 0 {
        assert(trim_front(core + after) == core + after);
    } else {
        assert(core + after =~= after);
        assert(after + core =~= after);
        lemma_trim_front(after, core);
        assert(trim_front(core) == core);
    }
    if core.len() > 0 {
        lemma_trim_back(core, after);
        assert(trim_back(core) == core);
    } else {
        assert(trim_front(before + (core + after)) =~= core);
    }
}

proof fn lemma_trim_front(before: Seq<char>, rest: Seq<char>)
    requires
        forall|i: int| 0 <= i < before.len() ==> is_space(#[trigger] before[i]),
    ensures
        trim_front(before + rest) == trim_front(rest),
    decreases before.len(),
{
    if before.len() == 0 {
        assert(before + rest =~= rest);
    } else {
        assert(is_space(before[0]));
        let fewer = before.drop_first();
        assert forall|i: int| 0 <= i < fewer.len() implies is_space(#[trigger] fewer[i]) by {
            assert(fewer[i] == before[i + 1]);
        }
        lemma_trim_front(fewer, rest);
        assert((before + rest).drop_first() =~= fewer + rest);
    }
}

proof fn lemma_trim_back(rest: Seq<char>, after: Seq<char>)
    requires
        forall|i: int| 0 <= i < after.len() ==> is_space(#[trigger] after[i]),
    ensures
        trim_back(rest + after) == trim_back(rest),
    decreases after.len(),
{
    if after.len() == 0 {
        assert(rest + after =~= rest);
    } else {
        assert(is_space(after.last()));
        lemma_trim_back(rest, after.drop_last());
        assert((rest + after).drop_last() =~= rest + after.drop_last());
    }
}

/// White space: blanks, tabs, line ends and the wider spaces; no visible ASCII character.
pub proof fn white_space_is_invisible(c: char)
    ensures
        c == ' ' || c == '\t' || c == '\n' || c == '\r' ==> is_space(c),
        33 <= c as nat <= 126 ==> !is_space(c),
{
}

/// Words are what stands between white space, in their order.
pub proof fn words_are_parted_by_spaces(word: Seq<char>, space: char, rest: Seq<char>)
    requires
        forall|i: int| 0 <= i < word.len() ==> !is_space(#[trigger] word[i]),
        is_space(space),
    ensures
        word.len() > 0 ==> words(word + seq![space] + rest) == seq![word] + words(rest),
        word.len() == 0 ==> words(word + seq![space] + rest) == words(rest),
        word.len() > 0 ==> words(word) == seq![word],
        words(seq![]).len() == 0,
{
    let s = word + seq![space] + rest;
    lemma_word_len(word, seq![space] + rest);
    lemma_word_len(word, seq![]);
    assert(s =~= word + (seq![space] + rest));
    assert(word + seq![] =~= word);
    if word.len() > 0 {
        assert(!is_space(word[0]));
        assert(s[0] == word[0]);
        assert(s.take(word.len() as int) =~= word);
        assert(s.skip(word.len() as int) =~= seq![space] + rest);
        let tail = seq![space] + rest;
        assert(tail[0] == space);
        assert(tail.drop_first() =~= rest);
        assert(words(tail) == words(rest));
    } else {
        assert(s[0] == space);
        assert(s.drop_first() =~= rest);
    }
}

proof fn lemma_word_len(word: Seq<char>, rest: Seq<char>)
    requires
        forall|i: int| 0 <= i < word.len() ==> !is_space(#[trigger] word[i]),
        rest.len() > 0 ==> is_space(rest[0]),
    ensures
        word_len(word + rest) == word.len(),
    decreases word.len(),
{
    if word.len() == 0 {
        assert(word + rest =~= rest);
    } else {
        assert(!is_space(word[0]));
        let fewer = word.drop_first();
        assert forall|i: int| 0 <= i < fewer.len() implies !is_space(#[trigger] fewer[i]) by {
            assert(fewer[i] == word[i + 1]);
        }
        lemma_word_len(fewer, rest);
        assert((word + rest).drop_first() =~= fewer + rest);
    }
}

/// Lines end at a line feed, with a carriage return before it taken off; the last may end
/// without one.
pub proof fn lines_end_at_line_feeds(line: Seq<char>, rest: Seq<char>)
    requires
        !line.contains('\n'),
    ensures
        lines(line + seq!['\n'] + rest) == seq![
            if line.len() > 0 && line.last() == '\r' {
                line.drop_last()
            } else {
                line
            },
        ] + lines(rest),
        line.len() > 0 ==> lines(line) == seq![line],
        lines(seq![]).len() == 0,
{
    let s = line + seq!['\n'] + rest;
    lemma_line_end(line, seq!['\n'] + rest);
    lemma_line_end(line, seq![]);
    assert(s =~= line + (seq!['\n'] + rest));
    assert(line + seq![] =~= line);
    assert(s.take(line.len() as int) =~= line);
    assert(s.skip(line.len() as int + 1) =~= rest);
}

proof fn lemma_line_end(line: Seq<char>, rest: Seq<char>)
    requires
        !line.contains('\n'),
        rest.len() > 0 ==> rest[0] == '\n',
    ensures
        line_len(line + rest) == line.len(),
    decreases line.len(),
{
    if line.len() == 0 {
        assert(line + rest =~= rest);
    } else {
        assert(line.contains(line[0]));
        let fewer = line.drop_first();
        if fewer.contains('\n') {
            let k = choose|k: int| 0 <= k < fewer.len() && fewer[k] == '\n';
            assert(line[k + 1] == '\n');
        }
        lemma_line_end(fewer, rest);
        assert((line + rest).drop_first() =~= fewer + rest);
    }
}

/// Texts are ordered by their first difference; a text comes before its continuations.
pub proof fn texts_are_ordered_by_the_first_difference(
    common: Seq<char>,
    a: Seq<char>,
    b: Seq<char>,
)
    ensures
        a.len() > 0 && b.len() > 0 && a[0] < b[0] ==> text_before(common + a, common + b),
        a.len() > 0 && b.len() > 0 && a[0] > b[0] ==> !text_before(common + a, common + b),
        a.len() == 0 && b.len() > 0 ==> text_before(common + a, common + b),
        b.len() == 0 ==> !text_before(common + a, common + b),
    decreases common.len(),
{
    if common.len() == 0 {
        assert(common + a =~= a);
        assert(common + b =~= b);
    } else {
        texts_are_ordered_by_the_first_difference(common.drop_first(), a, b);
        assert((common + a).drop_first() =~= common.drop_first() + a);
        assert((common + b).drop_first() =~= common.drop_first() + b);
    }
}

/// A text holds another exactly where it is one that stands between two others.
pub proof fn held_texts_stand_in_the_middle(s: Seq<char>, pattern: Seq<char>)
    ensures
        contains_text(s, pattern) <==> exists|before: Seq<char>, after: Seq<char>|
            s == #[trigger] (before + pattern + after),
{
    if contains_text(s, pattern) {
        let i = choose|i: int| #[trigger] occurs_at(s, pattern, i);
        assert(s =~= s.take(i) + pattern + s.skip(i + pattern.len()));
    }
    if exists|before: Seq<char>, after: Seq<char>| s == #[trigger] (before + pattern + after) {
        let (before, after) = choose|before: Seq<char>, after: Seq<char>|
            s == #[trigger] (before + pattern + after);
        lemma_contains_middle(before, pattern, after);
    }
}

/// A prefix is taken off exactly where the text starts with it.
pub proof fn prefixes_are_taken_off(prefix: Seq<char>, rest: Seq<char>, s: Seq<char>)
    ensures
        after_prefix(prefix + rest, prefix) == Some(rest),
        after_prefix(s, prefix) matches Some(left) ==> s == prefix + left,
{
    assert((prefix + rest).subrange(0, prefix.len() as int) =~= prefix);
    assert((prefix + rest).skip(prefix.len() as int) =~= rest);
    if has_prefix(s, prefix) {
        assert(s =~= prefix + s.skip(prefix.len() as int));
    }
}

} // verus!
