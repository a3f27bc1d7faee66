//! Text as sequences of characters: the few string operations that the rest of
//! the library needs, each with an exact contract.

use vstd::prelude::*;

verus! {

/// Appends one character.
///
/// `String::push` is documented to append the given `char` to the end of the
/// string, and the contract says the same of the character sequences.
pub assume_specification[ String::push ](s: &mut String, c: char)
    ensures
        final(s)@ == old(s)@.push(c),
;

/// The characters of `s`, one by one.
pub fn chars_of(s: &str) -> (v: Vec<char>)
    ensures
        v@ == s@,
{
    let mut v: Vec<char> = Vec::new();
    for c in it: s.chars()
        invariant
            v@ == it.seq().take(it.index()),
            it.seq() == s@,
    {
        v.push(c);
    }
    v
}

/// The string made of `chars[from..to]`.
pub fn string_of(chars: &Vec<char>, from: usize, to: usize) -> (s: String)
    requires
        from <= to <= chars@.len(),
    ensures
        s@ == chars@.subrange(from as int, to as int),
{
    let mut s = String::new();
    let mut i: usize = from;
    while i < to
        invariant
            from <= i <= to <= chars@.len(),
            s@ == chars@.subrange(from as int, i as int),
        decreases to - i,
    {
        s.push(chars[i]);
        i = i + 1;
    }
    s
}

/// Whether two strings hold the same characters.
pub fn same(a: &str, b: &str) -> (r: bool)
    ensures
        r == (a@ == b@),
{
    let x = chars_of(a);
    let y = chars_of(b);
    if x.len() != y.len() {
        return false;
    }
    let mut i: usize = 0;
    while i < x.len()
        invariant
            i <= x@.len(),
            x@ == a@,
            y@ == b@,
            x@.len() == y@.len(),
            forall|j: int| 0 <= j < i ==> x@[j] == y@[j],
        decreases x@.len() - i,
    {
        if x[i] != y[i] {
            return false;
        }
        i = i + 1;
    }
    assert(x@ =~= y@);
    true
}

/// The character of one decimal digit.
pub open spec fn digit(d: nat) -> char {
    (48 + d) as char
}

/// `n` in decimal, without leading zeros.
pub open spec fn decimal_text(n: nat) -> Seq<char>
    decreases n,
{
    if n < 10 {
        seq![digit(n)]
    } else {
        decimal_text(n / 10).push(digit(n % 10))
    }
}

/// `n` in decimal, without leading zeros.
pub fn decimal(n: u64) -> (s: String)
    ensures
        s@ == decimal_text(n as nat),
    decreases n,
{
    let mut s = if n < 10 {
        String::new()
    } else {
        decimal(n / 10)
    };
    let last: u8 = (n % 10) as u8;
    let c: char = (48u8 + last) as char;
    proof {
        assert(c == digit(last as nat));
    }
    s.push(c);
    s
}

/// The lower-case character of one hexadecimal digit.
pub open spec fn hex_digit(d: nat) -> char {
    if d < 10 {
        digit(d)
    } else {
        (87 + d) as char
    }
}

/// `n` in lower-case hexadecimal, without leading zeros.
pub open spec fn hex_text(n: nat) -> Seq<char>
    decreases n,
{
    if n < 16 {
        seq![hex_digit(n)]
    } else {
        hex_text(n / 16).push(hex_digit(n % 16))
    }
}

/// The lower-case character of one hexadecimal digit.
pub fn hex_char(d: u8) -> (c: char)
    requires
        d < 16,
    ensures
        c == hex_digit(d as nat),
{
    if d < 10 {
        (48u8 + d) as char
    } else {
        (87u8 + d) as char
    }
}

/// `n` in lower-case hexadecimal, without leading zeros.
pub fn hexadecimal(n: u64) -> (s: String)
    ensures
        s@ == hex_text(n as nat),
    decreases n,
{
    let mut s = if n < 16 {
        String::new()
    } else {
        hexadecimal(n / 16)
    };
    s.push(hex_char((n % 16) as u8));
    s
}

/// Whether `a` comes before `b` in dictionary order, or is the same.
pub open spec fn text_le(a: Seq<char>, b: Seq<char>) -> bool
    decreases a.len(),
{
    if a.len() == 0 {
        true
    } else if b.len() == 0 {
        false
    } else if a[0] != b[0] {
        a[0] < b[0]
    } else {
        text_le(a.drop_first(), b.drop_first())
    }
}

/// Dictionary order is total.
pub proof fn text_order_is_total(a: Seq<char>, b: Seq<char>)
    ensures
        text_le(a, b) || text_le(b, a),
    decreases a.len(),
{
    if a.len() > 0 && b.len() > 0 && a[0] == b[0] {
        text_order_is_total(a.drop_first(), b.drop_first());
    }
}

/// Dictionary order is transitive.
pub proof fn text_order_is_transitive(a: Seq<char>, b: Seq<char>, c: Seq<char>)
    requires
        text_le(a, b),
        text_le(b, c),
    ensures
        text_le(a, c),
    decreases a.len(),
{
    if a.len() > 0 && b.len() > 0 && c.len() > 0 && a[0] == b[0] && b[0] == c[0] {
        text_order_is_transitive(a.drop_first(), b.drop_first(), c.drop_first());
    }
}

/// Whether `a` comes before `b` in dictionary order, or is the same.
pub fn text_not_after(a: &str, b: &str) -> (r: bool)
    ensures
        r == text_le(a@, b@),
{
    let x = chars_of(a);
    let y = chars_of(b);
    let mut i: usize = 0;
    proof {
        assert(x@.skip(0) =~= a@);
        assert(y@.skip(0) =~= b@);
    }
    while i < x.len()
        invariant
            i <= x@.len(),
            i <= y@.len(),
            x@ == a@,
            y@ == b@,
            text_le(a@, b@) == text_le(x@.skip(i as int), y@.skip(i as int)),
        decreases x@.len() - i,
    {
        if i >= y.len() {
            return false;
        }
        if x[i] != y[i] {
            return x[i] < y[i];
        }
        proof {
            assert(x@.skip(i as int).drop_first() =~= x@.skip(i + 1));
            assert(y@.skip(i as int).drop_first() =~= y@.skip(i + 1));
        }
        i = i + 1;
    }
    true
}

/// Whether `c` is white space: the characters with the Unicode property of that
/// name.
pub open spec fn is_white(c: char) -> bool {
    let n = c as u32;
    ||| 0x09 <= n <= 0x0d
    ||| n == 0x20
    ||| n == 0x85
    ||| n == 0xa0
    ||| n == 0x1680
    ||| 0x2000 <= n <= 0x200a
    ||| n == 0x2028
    ||| n == 0x2029
    ||| n == 0x202f
    ||| n == 0x205f
    ||| n == 0x3000
}

/// Whether `c` is white space.
pub fn white(c: char) -> (r: bool)
    ensures
        r == is_white(c),
{
    let n: u32 = c as u32;
    (0x09 <= n && n <= 0x0d) || n == 0x20 || n == 0x85 || n == 0xa0 || n == 0x1680 || (0x2000
        <= n && n <= 0x200a) || n == 0x2028 || n == 0x2029 || n == 0x202f || n == 0x205f || n
        == 0x3000
}

/// `s` without leading white space.
pub open spec fn trimmed_start(s: Seq<char>) -> Seq<char>
    decreases s.len(),
{
    if s.len() > 0 && is_white(s[0]) {
        trimmed_start(s.drop_first())
    } else {
        s
    }
}

/// `s` without trailing white space.
pub open spec fn trimmed_end(s: Seq<char>) -> Seq<char>
    decreases s.len(),
{
    if s.len() > 0 && is_white(s.last()) {
        trimmed_end(s.drop_last())
    } else {
        s
    }
}

/// `s` without leading and trailing white space.
pub open spec fn trimmed(s: Seq<char>) -> Seq<char> {
    trimmed_end(trimmed_start(s))
}

/// `s` without leading and trailing white space.
pub fn trim(s: &str) -> (r: String)
    ensures
        r@ == trimmed(s@),
{
    let chars = chars_of(s);
    let mut from: usize = 0;
    assert(chars@.skip(0) =~= s@);
    while from < chars.len() && white(chars[from])
        invariant
            from <= chars@.len(),
            chars@ == s@,
            trimmed_start(s@) == trimmed_start(chars@.skip(from as int)),
        decreases chars@.len() - from,
    {
        assert(chars@.skip(from as int).drop_first() =~= chars@.skip(from + 1));
        from = from + 1;
    }
    let mut to: usize = chars.len();
    assert(chars@.subrange(from as int, to as int) =~= chars@.skip(from as int));
    while to > from && white(chars[to - 1])
        invariant
            from <= to <= chars@.len(),
            trimmed_end(chars@.skip(from as int)) == trimmed_end(
                chars@.subrange(from as int, to as int),
            ),
        decreases to - from,
    {
        assert(chars@.subrange(from as int, to as int).drop_last() =~= chars@.subrange(
            from as int,
            to - 1,
        ));
        to = to - 1;
    }
    string_of(&chars, from, to)
}

/// Text without white space at either end is its own trimmed form, with or
/// without a line feed behind it.
pub proof fn a_line_reads_back(s: Seq<char>)
    requires
        s.len() > 0,
        !is_white(s[0]),
        !is_white(s.last()),
    ensures
        trimmed(s) == s,
        trimmed(s.push('\n')) == s,
{
    let t = s.push('\n');
    reveal_with_fuel(trimmed_end, 2);
    assert(t[0] == s[0]);
    assert(t.drop_last() =~= s);
    assert(is_white('\n'));
}

/// Where `c` first stands in `s`; the length of `s` when it does not.
pub open spec fn first_index(s: Seq<char>, c: char) -> int
    decreases s.len(),
{
    if s.len() == 0 {
        0
    } else if s[0] == c {
        0
    } else {
        1 + first_index(s.drop_first(), c)
    }
}

/// The part of `s` before the first `c`: all of it when there is none.
pub open spec fn before_char(s: Seq<char>, c: char) -> Seq<char> {
    s.take(first_index(s, c))
}

/// Where `c` stands last in `s`; minus one when it does not.
pub open spec fn last_index(s: Seq<char>, c: char) -> int
    decreases s.len(),
{
    if s.len() == 0 {
        -1
    } else if s.last() == c {
        s.len() - 1
    } else {
        last_index(s.drop_last(), c)
    }
}

proof fn lemma_first_index(s: Seq<char>, c: char, n: int)
    requires
        0 <= n <= s.len(),
        forall|i: int| 0 <= i < n ==> s[i] != c,
        n < s.len() ==> s[n] == c,
    ensures
        first_index(s, c) == n,
    decreases s.len(),
{
    if n > 0 {
        assert(s[0] != c);
        assert forall|i: int| 0 <= i < n - 1 implies s.drop_first()[i] != c by {
            assert(s[i + 1] != c);
        }
        lemma_first_index(s.drop_first(), c, n - 1);
    }
}

/// Where `c` first stands among `chars` at or after `from`.
pub fn find_from(chars: &Vec<char>, from: usize, c: char) -> (at: usize)
    requires
        from <= chars@.len(),
    ensures
        from <= at <= chars@.len(),
        at == from + first_index(chars@.skip(from as int), c),
        forall|i: int| from <= i < at ==> chars@[i] != c,
        at < chars@.len() ==> chars@[at as int] == c,
{
    let mut at: usize = from;
    while at < chars.len() && chars[at] != c
        invariant
            from <= at <= chars@.len(),
            forall|i: int| from <= i < at ==> chars@[i] != c,
        decreases chars@.len() - at,
    {
        at = at + 1;
    }
    proof {
        let rest = chars@.skip(from as int);
        assert forall|i: int| 0 <= i < at - from implies rest[i] != c by {
            assert(chars@[from + i] != c);
        }
        lemma_first_index(rest, c, at - from);
    }
    at
}

/// Where `c` stands last in `chars`, if anywhere.
pub fn find_last(chars: &Vec<char>, c: char) -> (at: Option<usize>)
    ensures
        match at {
            Some(i) => i < chars@.len() && i == last_index(chars@, c),
            None => last_index(chars@, c) == -1,
        },
{
    let mut i: usize = chars.len();
    assert(chars@.take(i as int) =~= chars@);
    while i > 0
        invariant
            i <= chars@.len(),
            last_index(chars@, c) == last_index(chars@.take(i as int), c),
        decreases i,
    {
        assert(chars@.take(i as int).drop_last() =~= chars@.take(i - 1));
        if chars[i - 1] == c {
            return Some(i - 1);
        }
        i = i - 1;
    }
    None
}

/// Whether `s` begins with `p`.
pub open spec fn begins_with(s: Seq<char>, p: Seq<char>) -> bool {
    s.len() >= p.len() && s.take(p.len() as int) == p
}

/// Whether `s` begins with `p`.
pub fn has_prefix(s: &Vec<char>, p: &Vec<char>) -> (r: bool)
    ensures
        r == begins_with(s@, p@),
{
    if s.len() < p.len() {
        return false;
    }
    let mut i: usize = 0;
    while i < p.len()
        invariant
            i <= p@.len() <= s@.len(),
            forall|j: int| 0 <= j < i ==> s@[j] == p@[j],
        decreases p@.len() - i,
    {
        if s[i] != p[i] {
            assert(s@.take(p@.len() as int)[i as int] != p@[i as int]);
            return false;
        }
        i = i + 1;
    }
    assert(s@.take(p@.len() as int) =~= p@);
    true
}

/// Whether `p` stands somewhere in `s`.
pub open spec fn has_text(s: Seq<char>, p: Seq<char>) -> bool {
    exists|i: int| 0 <= i <= s.len() && #[trigger] begins_with(s.skip(i), p)
}

/// Whether `p` stands somewhere in `s`.
pub fn mentions(s: &str, p: &str) -> (r: bool)
    ensures
        r == has_text(s@, p@),
{
    let chars = chars_of(s);
    let wanted = chars_of(p);
    let mut i: usize = 0;
    loop
        invariant
            i <= chars@.len(),
            chars@ == s@,
            wanted@ == p@,
            forall|j: int| 0 <= j < i ==> !#[trigger] begins_with(s@.skip(j), p@),
        decreases chars@.len() - i,
    {
        let mut rest: Vec<char> = Vec::new();
        let mut k: usize = i;
        while k < chars.len()
            invariant
                i <= k <= chars@.len(),
                rest@ == chars@.subrange(i as int, k as int),
            decreases chars@.len() - k,
        {
            rest.push(chars[k]);
            assert(chars@.subrange(i as int, k + 1) =~= rest@);
            k = k + 1;
        }
        assert(rest@ =~= s@.skip(i as int));
        if has_prefix(&rest, &wanted) {
            return true;
        }
        if i == chars.len() {
            return false;
        }
        i = i + 1;
    }
}

/// The lines of `s`: what stands between line feeds.
pub open spec fn split_lines(s: Seq<char>) -> Seq<Seq<char>>
    decreases s.len(),
{
    let n = first_index(s, '\n');
    if 0 <= n < s.len() {
        seq![s.take(n)] + split_lines(s.skip(n + 1))
    } else {
        seq![s]
    }
}

/// The lines of `s`: what stands between line feeds.
pub fn lines(s: &str) -> (v: Vec<String>)
    ensures
        texts(v@) == split_lines(s@),
{
    let chars = chars_of(s);
    let mut v: Vec<String> = Vec::new();
    let mut from: usize = 0;
    proof {
        assert(chars@.skip(0) =~= s@);
        assert(texts(v@) + split_lines(chars@.skip(0)) =~= split_lines(s@));
    }
    loop
        invariant
            from <= chars@.len(),
            chars@ == s@,
            texts(v@) + split_lines(chars@.skip(from as int)) == split_lines(s@),
        decreases chars@.len() - from,
    {
        let at: usize = find_from(&chars, from, '\n');
        let line = string_of(&chars, from, at);
        let ghost before = v@;
        let ghost rest = chars@.skip(from as int);
        v.push(line);
        proof {
            assert(texts(v@) =~= texts(before).push(line@));
            assert(line@ =~= rest.take(at - from));
            if at < chars@.len() {
                assert(rest.skip(at - from + 1) =~= chars@.skip(at + 1));
                assert(texts(v@) + split_lines(chars@.skip(at + 1)) =~= texts(before)
                    + split_lines(rest));
            } else {
                assert(rest.take(at - from) =~= rest);
                assert(texts(v@) =~= texts(before) + split_lines(rest));
            }
        }
        if at >= chars.len() {
            return v;
        }
        from = at + 1;
    }
}

/// The first word of `s` that is not white space: what stands before the first
/// white space.
pub open spec fn first_word(s: Seq<char>) -> Seq<char>
    decreases s.len(),
{
    if s.len() == 0 || is_white(s[0]) {
        seq![]
    } else {
        seq![s[0]] + first_word(s.drop_first())
    }
}

/// The part of `s` before the first white space.
pub fn leading_word(s: &str) -> (r: String)
    ensures
        r@ == first_word(s@),
{
    let chars = chars_of(s);
    let mut r = String::new();
    let mut i: usize = 0;
    proof {
        assert(chars@.skip(0) =~= s@);
        assert(r@ + first_word(chars@.skip(0)) =~= first_word(s@));
    }
    while i < chars.len() && !white(chars[i])
        invariant
            i <= chars@.len(),
            chars@ == s@,
            r@ + first_word(chars@.skip(i as int)) == first_word(s@),
        decreases chars@.len() - i,
    {
        let ghost rest = chars@.skip(i as int);
        let ghost before = r@;
        proof {
            assert(rest.drop_first() =~= chars@.skip(i + 1));
        }
        r.push(chars[i]);
        proof {
            assert(r@ + first_word(chars@.skip(i + 1)) =~= before + first_word(rest));
        }
        i = i + 1;
    }
    assert(r@ =~= first_word(s@));
    r
}

/// How a string is written in a message, in quotes and with what is not
/// printable escaped.
pub uninterp spec fn quoted_text(s: Seq<char>) -> Seq<char>;

/// Writes a string in quotes.
///
/// The text is that of the `Debug` implementation of `str`, which depends on
/// the string alone. Nothing more is claimed of it.
#[verifier::external_body]
pub(crate) fn quoted(s: &str) -> (r: String)
    ensures
        r@ == quoted_text(s@),
{
    format!("{s:?}")
}

/// Bytes read as text, with what is not UTF-8 replaced.
pub uninterp spec fn lossy_text(bytes: Seq<u8>) -> Seq<char>;

/// Reads bytes as text.
///
/// `String::from_utf8_lossy` replaces invalid sequences and returns valid UTF-8
/// as it is; the result depends on the bytes alone. Beside the name only the
/// second is claimed.
#[verifier::external_body]
pub(crate) fn lossy(bytes: &[u8]) -> (r: String)
    ensures
        r@ == lossy_text(bytes@),
        vstd::utf8::valid_utf8(bytes@) ==> r@ == vstd::utf8::decode_utf8(bytes@),
{
    String::from_utf8_lossy(bytes).into_owned()
}

/// The number of bytes of `s` in UTF-8.
pub fn byte_count(s: &str) -> (n: usize)
    ensures
        n == vstd::utf8::encode_utf8(s@).len(),
{
    s.as_bytes().len()
}

/// Whether some character of `s` is white space.
pub open spec fn has_white(s: Seq<char>) -> bool {
    exists|i: int| 0 <= i < s.len() && is_white(#[trigger] s[i])
}

/// Whether some character of `s` is white space.
pub fn holds_white(s: &str) -> (r: bool)
    ensures
        r == has_white(s@),
{
    let chars = chars_of(s);
    let mut i: usize = 0;
    while i < chars.len()
        invariant
            i <= chars@.len(),
            chars@ == s@,
            forall|j: int| 0 <= j < i ==> !is_white(#[trigger] s@[j]),
        decreases chars@.len() - i,
    {
        if white(chars[i]) {
            assert(is_white(s@[i as int]));
            return true;
        }
        i = i + 1;
    }
    false
}

/// `n` in octal, without leading zeros.
pub open spec fn octal_text(n: nat) -> Seq<char>
    decreases n,
{
    if n < 8 {
        seq![digit(n)]
    } else {
        octal_text(n / 8).push(digit(n % 8))
    }
}

/// `n` in octal, without leading zeros.
pub fn octal(n: u64) -> (s: String)
    ensures
        s@ == octal_text(n as nat),
    decreases n,
{
    let mut s = if n < 8 {
        String::new()
    } else {
        octal(n / 8)
    };
    let last: u8 = (n % 8) as u8;
    s.push((48u8 + last) as char);
    s
}

/// `s` with zeros in front until it is `width` long.
pub open spec fn padded(s: Seq<char>, width: nat) -> Seq<char>
    decreases width - s.len(),
{
    if s.len() < width {
        padded(seq!['0'] + s, width)
    } else {
        s
    }
}

/// `s` with zeros in front until it is `width` long.
pub fn pad(s: &str, width: usize) -> (r: String)
    ensures
        r@ == padded(s@, width as nat),
    decreases width - s@.len(),
{
    if chars_of(s).len() >= width {
        return String::from_str(s);
    }
    let mut longer = String::new();
    longer.push('0');
    longer.append(s);
    assert(longer@ =~= seq!['0'] + s@);
    pad(longer.as_str(), width)
}

/// A list of strings as the sequence of their characters.
pub open spec fn texts(v: Seq<String>) -> Seq<Seq<char>> {
    v.map_values(|s: String| s@)
}

/// The number that a character stands for as a digit: the ten decimal digits,
/// then the letters from `a` on.
pub open spec fn digit_worth(c: char) -> int {
    if '0' <= c && c <= '9' {
        c as u32 - '0' as u32
    } else if 'a' <= c && c <= 'f' {
        c as u32 - 'a' as u32 + 10
    } else {
        -1
    }
}

/// The number that a numeral of the given base stands for.
pub open spec fn numeral_worth(s: Seq<char>, base: int) -> int
    decreases s.len(),
{
    if s.len() == 0 {
        0
    } else {
        numeral_worth(s.drop_last(), base) * base + digit_worth(s.last())
    }
}

/// A numeral of the given base: digits, and no zero in front of others.
pub open spec fn is_numeral(s: Seq<char>, base: int) -> bool {
    &&& s.len() > 0
    &&& forall|i: int| 0 <= i < s.len() ==> 0 <= digit_worth(#[trigger] s[i]) < base
    &&& s.len() > 1 ==> s[0] != '0'
}

/// A number is written as the numeral that stands for it: in decimal, in
/// hexadecimal, and in octal.
pub proof fn a_numeral_stands_for_its_number(n: u64, ten: String, sixteen: String, eight: String)
    requires
        call_ensures(decimal, (n,), ten),
        call_ensures(hexadecimal, (n,), sixteen),
        call_ensures(octal, (n,), eight),
    ensures
        is_numeral(ten@, 10) && numeral_worth(ten@, 10) == n,
        is_numeral(sixteen@, 16) && numeral_worth(sixteen@, 16) == n,
        is_numeral(eight@, 8) && numeral_worth(eight@, 8) == n,
{
    lemma_decimal(n as nat);
    lemma_hexadecimal(n as nat);
    lemma_octal(n as nat);
}

/// What decimal text stands for.
pub proof fn lemma_decimal(n: nat)
    ensures
        is_numeral(decimal_text(n), 10),
        numeral_worth(decimal_text(n), 10) == n,
        n > 0 ==> decimal_text(n)[0] != '0',
    decreases n,
{
    let s = decimal_text(n);
    if n < 10 {
        assert(s.drop_last() =~= seq![]);
        reveal_with_fuel(numeral_worth, 2);
    } else {
        lemma_decimal(n / 10);
        assert(s.drop_last() =~= decimal_text(n / 10));
        assert forall|i: int| 0 <= i < s.len() implies 0 <= digit_worth(#[trigger] s[i]) < 10 by {
            if i < s.len() - 1 {
                assert(s[i] == decimal_text(n / 10)[i]);
            }
        }
    }
}

proof fn lemma_hexadecimal(n: nat)
    ensures
        is_numeral(hex_text(n), 16),
        numeral_worth(hex_text(n), 16) == n,
        n > 0 ==> hex_text(n)[0] != '0',
    decreases n,
{
    let s = hex_text(n);
    if n < 16 {
        assert(s.drop_last() =~= seq![]);
        reveal_with_fuel(numeral_worth, 2);
    } else {
        lemma_hexadecimal(n / 16);
        assert(s.drop_last() =~= hex_text(n / 16));
        assert forall|i: int| 0 <= i < s.len() implies 0 <= digit_worth(#[trigger] s[i]) < 16 by {
            if i < s.len() - 1 {
                assert(s[i] == hex_text(n / 16)[i]);
            }
        }
    }
}

proof fn lemma_octal(n: nat)
    ensures
        is_numeral(octal_text(n), 8),
        numeral_worth(octal_text(n), 8) == n,
        n > 0 ==> octal_text(n)[0] != '0',
    decreases n,
{
    let s = octal_text(n);
    if n < 8 {
        assert(s.drop_last() =~= seq![]);
        reveal_with_fuel(numeral_worth, 2);
    } else {
        lemma_octal(n / 8);
        assert(s.drop_last() =~= octal_text(n / 8));
        assert forall|i: int| 0 <= i < s.len() implies 0 <= digit_worth(#[trigger] s[i]) < 8 by {
            if i < s.len() - 1 {
                assert(s[i] == octal_text(n / 8)[i]);
            }
        }
    }
}

/// Two numbers with one numeral are one number.
pub proof fn decimal_text_is_unambiguous(a: nat, b: nat)
    requires
        decimal_text(a) == decimal_text(b),
    ensures
        a == b,
{
    lemma_decimal(a);
    lemma_decimal(b);
}

/// Trimming takes white space off both ends and nothing else: what is left
/// stands in the text, between white space only, and begins and ends with
/// something else.
pub proof fn trimming_takes_white_space_only(s: &str, r: String)
    requires
        call_ensures(trim, (s,), r),
    ensures
        exists|from: int, to: int|
            {
                &&& 0 <= from <= to <= s@.len()
                &&& r@ == #[trigger] s@.subrange(from, to)
                &&& forall|i: int| 0 <= i < from || to <= i < s@.len() ==> is_white(#[trigger] s@[i])
            },
        r@.len() > 0 ==> !is_white(r@[0]) && !is_white(r@.last()),
{
    let from = lemma_trimmed_start(s@);
    let rest = s@.skip(from);
    let len = lemma_trimmed_end(rest);
    let to = from + len;
    assert(rest.take(len) =~= s@.subrange(from, to));
    assert forall|i: int| 0 <= i < from || to <= i < s@.len() implies is_white(
        #[trigger] s@[i],
    ) by {
        if i >= to {
            assert(rest[i - from] == s@[i]);
        }
    }
    assert(r@ == s@.subrange(from, to));
}

proof fn lemma_trimmed_start(s: Seq<char>) -> (from: int)
    ensures
        0 <= from <= s.len(),
        trimmed_start(s) == s.skip(from),
        forall|i: int| 0 <= i < from ==> is_white(#[trigger] s[i]),
        from < s.len() ==> !is_white(s[from]),
    decreases s.len(),
{
    if s.len() > 0 && is_white(s[0]) {
        let rest = s.drop_first();
        let from = lemma_trimmed_start(rest);
        assert(rest.skip(from) =~= s.skip(from + 1));
        assert forall|i: int| 0 <= i < from + 1 implies is_white(#[trigger] s[i]) by {
            if i > 0 {
                assert(rest[i - 1] == s[i]);
            }
        }
        from + 1
    } else {
        assert(s.skip(0) =~= s);
        0
    }
}

proof fn lemma_trimmed_end(s: Seq<char>) -> (len: int)
    ensures
        0 <= len <= s.len(),
        trimmed_end(s) == s.take(len),
        forall|i: int| len <= i < s.len() ==> is_white(#[trigger] s[i]),
        len > 0 ==> !is_white(s[len - 1]),
    decreases s.len(),
{
    if s.len() > 0 && is_white(s.last()) {
        let init = s.drop_last();
        let len = lemma_trimmed_end(init);
        assert(init.take(len) =~= s.take(len));
        assert forall|i: int| len <= i < s.len() implies is_white(#[trigger] s[i]) by {
            if i < init.len() {
                assert(init[i] == s[i]);
            }
        }
        len
    } else {
        assert(s.take(s.len() as int) =~= s);
        s.len() as int
    }
}

/// Among the ASCII characters, the space and the five controls from the tab to
/// the carriage return are white space, and no others.
pub proof fn ascii_white_space(c: char, r: bool)
    requires
        call_ensures(white, (c,), r),
        c as u32 <= 0x7f,
    ensures
        r <==> c == ' ' || ('\t' <= c && c <= '\r'),
{
}

/// Lines with a line feed between each two.
pub open spec fn lines_joined(lines: Seq<Seq<char>>) -> Seq<char>
    decreases lines.len(),
{
    if lines.len() == 0 {
        seq![]
    } else if lines.len() == 1 {
        lines[0]
    } else {
        lines[0] + seq!['\n'] + lines_joined(lines.drop_first())
    }
}

/// A text is its lines with line feeds between them, and no line has one in it.
pub proof fn a_text_is_its_lines(s: &str, v: Vec<String>)
    requires
        call_ensures(lines, (s,), v),
    ensures
        v@.len() > 0,
        lines_joined(texts(v@)) == s@,
        forall|i: int, k: int|
            0 <= i < v@.len() && 0 <= k < v@[i]@.len() ==> #[trigger] v@[i]@[k] != '\n',
{
    lemma_lines(s@);
    assert forall|i: int, k: int|
        0 <= i < v@.len() && 0 <= k < v@[i]@.len() implies #[trigger] v@[i]@[k] != '\n' by {
        assert(texts(v@)[i] == v@[i]@);
    }
}

proof fn lemma_lines(s: Seq<char>)
    ensures
        split_lines(s).len() > 0,
        lines_joined(split_lines(s)) == s,
        forall|i: int, k: int|
            0 <= i < split_lines(s).len() && 0 <= k < split_lines(s)[i].len()
                ==> #[trigger] split_lines(s)[i][k] != '\n',
    decreases s.len(),
{
    let n = first_index(s, '\n');
    lemma_first_place(s, '\n');
    if 0 <= n < s.len() {
        let rest = split_lines(s.skip(n + 1));
        lemma_lines(s.skip(n + 1));
        let all = seq![s.take(n)] + rest;
        assert(all.drop_first() =~= rest);
        assert(s =~= s.take(n) + seq!['\n'] + s.skip(n + 1));
        assert forall|i: int, k: int|
            0 <= i < all.len() && 0 <= k < all[i].len() implies #[trigger] all[i][k] != '\n' by {
            if i > 0 {
                assert(rest[i - 1][k] == all[i][k]);
            }
        }
    }
}

proof fn lemma_first_place(s: Seq<char>, c: char)
    ensures
        0 <= first_index(s, c) <= s.len(),
        forall|i: int| 0 <= i < first_index(s, c) ==> #[trigger] s[i] != c,
        first_index(s, c) < s.len() ==> s[first_index(s, c)] == c,
    decreases s.len(),
{
    if s.len() > 0 && s[0] != c {
        let rest = s.drop_first();
        lemma_first_place(rest, c);
        assert forall|i: int| 0 <= i < first_index(s, c) implies #[trigger] s[i] != c by {
            if i > 0 {
                assert(rest[i - 1] == s[i]);
            }
        }
    }
}

/// A character is found where it stands first, and where it stands last.
pub proof fn a_character_is_found_first_and_last(
    chars: &Vec<char>,
    from: usize,
    c: char,
    first: usize,
    last: Option<usize>,
)
    requires
        from <= chars@.len(),
        call_ensures(find_from, (chars, from, c), first),
        call_ensures(find_last, (chars, c), last),
    ensures
        from <= first <= chars@.len(),
        forall|i: int| from <= i < first ==> #[trigger] chars@[i] != c,
        first < chars@.len() ==> chars@[first as int] == c,
        match last {
            Some(at) => {
                &&& at < chars@.len() && chars@[at as int] == c
                &&& forall|i: int| at < i < chars@.len() ==> #[trigger] chars@[i] != c
            },
            None => !chars@.contains(c),
        },
{
    lemma_last_place(chars@, c);
}

proof fn lemma_last_place(s: Seq<char>, c: char)
    ensures
        -1 <= last_index(s, c) < s.len(),
        last_index(s, c) >= 0 ==> s[last_index(s, c)] == c,
        forall|i: int| last_index(s, c) < i < s.len() ==> #[trigger] s[i] != c,
    decreases s.len(),
{
    if s.len() > 0 && s.last() != c {
        let init = s.drop_last();
        lemma_last_place(init, c);
        assert forall|i: int| last_index(s, c) < i < s.len() implies #[trigger] s[i] != c by {
            if i < init.len() {
                assert(init[i] == s[i]);
            }
        }
    }
}

/// A word ends where white space begins.
pub proof fn a_word_ends_at_white_space(s: &str, r: String)
    requires
        call_ensures(leading_word, (s,), r),
    ensures
        r@.len() <= s@.len(),
        r@ == s@.take(r@.len() as int),
        forall|i: int| 0 <= i < r@.len() ==> !is_white(#[trigger] r@[i]),
        r@.len() < s@.len() ==> is_white(s@[r@.len() as int]),
{
    lemma_word(s@);
}

proof fn lemma_word(s: Seq<char>)
    ensures
        first_word(s).len() <= s.len(),
        first_word(s) == s.take(first_word(s).len() as int),
        forall|i: int| 0 <= i < first_word(s).len() ==> !is_white(#[trigger] first_word(s)[i]),
        first_word(s).len() < s.len() ==> is_white(s[first_word(s).len() as int]),
    decreases s.len(),
{
    let w = first_word(s);
    if s.len() > 0 && !is_white(s[0]) {
        let rest = s.drop_first();
        lemma_word(rest);
        assert(w =~= s.take(w.len() as int));
        assert forall|i: int| 0 <= i < w.len() implies !is_white(#[trigger] w[i]) by {
            if i > 0 {
                assert(first_word(rest)[i - 1] == w[i]);
            }
        }
    } else {
        assert(w =~= s.take(0));
    }
}

/// Padding puts zeros in front, as many as the width lacks.
pub proof fn padding_is_zeros_in_front(s: &str, width: usize, r: String)
    requires
        call_ensures(pad, (s, width), r),
    ensures
        r@.len() == if s@.len() < width {
            width as nat
        } else {
            s@.len()
        },
        r@.skip(r@.len() - s@.len()) == s@,
        forall|i: int| 0 <= i < r@.len() - s@.len() ==> #[trigger] r@[i] == '0',
{
    lemma_padded(s@, width as nat);
}

proof fn lemma_padded(s: Seq<char>, width: nat)
    ensures
        padded(s, width).len() == if s.len() < width {
            width
        } else {
            s.len()
        },
        padded(s, width).skip(padded(s, width).len() - s.len()) == s,
        forall|i: int|
            0 <= i < padded(s, width).len() - s.len() ==> #[trigger] padded(s, width)[i] == '0',
    decreases width - s.len(),
{
    let p = padded(s, width);
    if s.len() < width {
        let t = seq!['0'] + s;
        lemma_padded(t, width);
        let m = p.len() - t.len();
        assert(p.skip(m) == t);
        assert(p[m] == p.skip(m)[0]);
        assert(p.skip(m + 1) =~= p.skip(m).skip(1));
        assert(t.skip(1) =~= s);
        assert forall|i: int| 0 <= i < p.len() - s.len() implies #[trigger] p[i] == '0' by {
            if i < m {
                assert(padded(t, width)[i] == '0');
            }
        }
    } else {
        assert(p.skip(0) =~= p);
    }
}

/// Dictionary order goes by the first character in which two texts differ; a
/// text comes after its own beginnings.
pub proof fn dictionary_order_is_by_the_first_difference(a: &str, b: &str, r: bool, k: int)
    requires
        call_ensures(text_not_after, (a, b), r),
        0 <= k <= a@.len(),
        k <= b@.len(),
        forall|i: int| 0 <= i < k ==> #[trigger] a@[i] == b@[i],
        k < a@.len() && k < b@.len() ==> a@[k] != b@[k],
    ensures
        r <==> k == a@.len() || (k < b@.len() && a@[k] < b@[k]),
{
    lemma_order(a@, b@, k);
}

proof fn lemma_order(a: Seq<char>, b: Seq<char>, k: int)
    requires
        0 <= k <= a.len(),
        k <= b.len(),
        forall|i: int| 0 <= i < k ==> #[trigger] a[i] == b[i],
        k < a.len() && k < b.len() ==> a[k] != b[k],
    ensures
        text_le(a, b) <==> k == a.len() || (k < b.len() && a[k] < b[k]),
    decreases k,
{
    if k > 0 {
        assert(a[0] == b[0]);
        assert forall|i: int| 0 <= i < k - 1 implies #[trigger] a.drop_first()[i]
            == b.drop_first()[i] by {
            assert(a[i + 1] == b[i + 1]);
        }
        lemma_order(a.drop_first(), b.drop_first(), k - 1);
    }
}

/// A text mentions another exactly when it has it in it.
pub proof fn a_mention_is_a_part(s: &str, p: &str, r: bool)
    requires
        call_ensures(mentions, (s, p), r),
    ensures
        r <==> exists|i: int|
            0 <= i && i + p@.len() <= s@.len() && #[trigger] s@.subrange(i, i + p@.len()) == p@,
{
    if r {
        let i = choose|i: int| 0 <= i <= s@.len() && #[trigger] begins_with(s@.skip(i), p@);
        assert(s@.subrange(i, i + p@.len()) =~= s@.skip(i).take(p@.len() as int));
    }
    if exists|i: int|
        0 <= i && i + p@.len() <= s@.len() && #[trigger] s@.subrange(i, i + p@.len()) == p@ {
        let i = choose|i: int|
            0 <= i && i + p@.len() <= s@.len() && #[trigger] s@.subrange(i, i + p@.len()) == p@;
        assert(s@.subrange(i, i + p@.len()) =~= s@.skip(i).take(p@.len() as int));
        assert(begins_with(s@.skip(i), p@));
    }
}

/// A decimal numeral is the text of the number that it stands for.
pub proof fn lemma_numeral(s: Seq<char>)
    requires
        is_numeral(s, 10),
    ensures
        numeral_worth(s, 10) >= 0,
        s == decimal_text(numeral_worth(s, 10) as nat),
        s[0] != '0' ==> numeral_worth(s, 10) > 0,
    decreases s.len(),
{
    let init = s.drop_last();
    let d = digit_worth(s.last());
    assert(0 <= digit_worth(s[s.len() - 1]) < 10);
    assert(digit(d as nat) == s.last());
    if s.len() == 1 {
        reveal_with_fuel(numeral_worth, 2);
        assert(init =~= seq![]);
        assert(s =~= seq![s[0]]);
        assert(decimal_text(d as nat) =~= s);
    } else {
        assert forall|i: int| 0 <= i < init.len() implies 0 <= digit_worth(#[trigger] init[i])
            < 10 by {
            assert(init[i] == s[i]);
        }
        assert(init[0] == s[0]);
        lemma_numeral(init);
        let w = numeral_worth(init, 10) as nat;
        let n = numeral_worth(s, 10) as nat;
        assert(n == w * 10 + d);
        assert(n / 10 == w && n % 10 == d);
        assert(decimal_text(n) =~= init.push(s.last()));
        assert(s =~= init.push(s.last()));
    }
}

} // verus!
