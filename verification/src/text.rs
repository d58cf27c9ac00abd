//! Character-level model of text: whitespace, UTF-8 widths, trimming,
//! line splitting and decimal rendering.
//!
//! Every string is handled as its sequence of `char`s.  Positions that the
//! linter reports (columns, lengths) are character positions.  UTF-8 byte
//! counts (`byte_len`) serve only to cut the short excerpts that the MD001
//! and MD009 messages quote.

use vstd::prelude::*;

verus! {

// ───────────────────────────── specifications ─────────────────────────────

/// `char::is_whitespace`: the characters with the Unicode `White_Space`
/// property.
pub open spec fn is_ws(c: char) -> bool {
    ||| ('\t' <= c && c <= '\r')
    ||| c == ' '
    ||| c == '\u{85}'
    ||| c == '\u{a0}'
    ||| c == '\u{1680}'
    ||| ('\u{2000}' <= c && c <= '\u{200a}')
    ||| c == '\u{2028}'
    ||| c == '\u{2029}'
    ||| c == '\u{202f}'
    ||| c == '\u{205f}'
    ||| c == '\u{3000}'
}

/// Number of bytes of the UTF-8 encoding of `c`.
pub open spec fn char_width(c: char) -> nat {
    if (c as int) < 0x80 {
        1
    } else if (c as int) < 0x800 {
        2
    } else if (c as int) < 0x10000 {
        3
    } else {
        4
    }
}

/// Number of bytes of the UTF-8 encoding of `s`.
pub open spec fn byte_len(s: Seq<char>) -> nat
    decreases s.len(),
{
    if s.len() == 0 {
        0
    } else {
        byte_len(s.drop_last()) + char_width(s.last())
    }
}

/// Number of leading whitespace characters of `s`.
pub open spec fn leading_ws(s: Seq<char>) -> nat
    decreases s.len(),
{
    if s.len() > 0 && is_ws(s[0]) {
        1 + leading_ws(s.drop_first())
    } else {
        0
    }
}

/// Number of leading characters of `s` equal to `c`.
pub open spec fn leading_eq(s: Seq<char>, c: char) -> nat
    decreases s.len(),
{
    if s.len() > 0 && s[0] == c {
        1 + leading_eq(s.drop_first(), c)
    } else {
        0
    }
}

/// Number of leading characters of `s` different from `c` (the index of the
/// first `c`, or the length when there is none).
pub open spec fn leading_ne(s: Seq<char>, c: char) -> nat
    decreases s.len(),
{
    if s.len() > 0 && s[0] != c {
        1 + leading_ne(s.drop_first(), c)
    } else {
        0
    }
}

/// Number of trailing whitespace characters of `s`.
pub open spec fn trailing_ws(s: Seq<char>) -> nat
    decreases s.len(),
{
    if s.len() > 0 && is_ws(s.last()) {
        1 + trailing_ws(s.drop_last())
    } else {
        0
    }
}

/// Number of trailing characters of `s` equal to `c`.
pub open spec fn trailing_eq(s: Seq<char>, c: char) -> nat
    decreases s.len(),
{
    if s.len() > 0 && s.last() == c {
        1 + trailing_eq(s.drop_last(), c)
    } else {
        0
    }
}

/// Number of occurrences of `c` in `s`.
pub open spec fn count_eq(s: Seq<char>, c: char) -> nat
    decreases s.len(),
{
    if s.len() == 0 {
        0
    } else {
        count_eq(s.drop_last(), c) + if s.last() == c { 1nat } else { 0nat }
    }
}

/// `str::trim_start`.
pub open spec fn trim_start(s: Seq<char>) -> Seq<char> {
    s.skip(leading_ws(s) as int)
}

/// `str::trim_end`.
pub open spec fn trim_end(s: Seq<char>) -> Seq<char> {
    s.take(s.len() - trailing_ws(s))
}

/// `str::trim`.
pub open spec fn trim(s: Seq<char>) -> Seq<char> {
    trim_end(trim_start(s))
}

/// `s` begins with `c`.
pub open spec fn starts_with(s: Seq<char>, c: char) -> bool {
    s.len() > 0 && s[0] == c
}

/// `s` ends with `c`.
pub open spec fn ends_with(s: Seq<char>, c: char) -> bool {
    s.len() > 0 && s.last() == c
}

/// `s` begins with `p`.
pub open spec fn has_prefix(s: Seq<char>, p: Seq<char>) -> bool {
    p.len() <= s.len() && s.take(p.len() as int) == p
}

/// The decimal digit for `d < 10`.
pub open spec fn digit(d: nat) -> char {
    if d == 0 { '0' }
    else if d == 1 { '1' }
    else if d == 2 { '2' }
    else if d == 3 { '3' }
    else if d == 4 { '4' }
    else if d == 5 { '5' }
    else if d == 6 { '6' }
    else if d == 7 { '7' }
    else if d == 8 { '8' }
    else { '9' }
}

/// Decimal rendering of `n`, as `Display` writes an unsigned integer.
pub open spec fn decimal(n: nat) -> Seq<char>
    decreases n,
{
    if n < 10 {
        seq![digit(n)]
    } else {
        decimal(n / 10).push(digit(n % 10))
    }
}

/// `s` with one trailing carriage return removed, if it has one.
pub open spec fn strip_cr(s: Seq<char>) -> Seq<char> {
    if ends_with(s, '\r') {
        s.drop_last()
    } else {
        s
    }
}

/// `str::lines`: the pieces of `s` between line feeds; a piece that ended
/// with a line feed also loses one carriage return before it, and a final
/// line feed does not begin an empty last line.
pub open spec fn lines(s: Seq<char>) -> Seq<Seq<char>>
    decreases s.len(),
{
    if s.len() == 0 {
        seq![]
    } else {
        let k = leading_ne(s, '\n');
        if k >= s.len() {
            seq![s]
        } else {
            seq![strip_cr(s.take(k as int))] + lines(s.skip(k as int + 1))
        }
    }
}

/// The character sequences held by a vector of lines.
pub open spec fn seqs(v: Seq<Vec<char>>) -> Seq<Seq<char>> {
    v.map_values(|l: Vec<char>| l@)
}

/// The 1-based column (character position) of the first character after the
/// indentation (leading whitespace) of `raw`.
pub open spec fn indent_col(raw: Seq<char>) -> nat {
    leading_ws(raw) + 1
}

/// `&s[..n]`: the prefix of `s` that is `n` bytes long, or `None` when `n`
/// does not fall between two characters.
pub open spec fn byte_prefix(s: Seq<char>, n: nat) -> Option<Seq<char>> {
    if exists|k: int| 0 <= k <= s.len() && byte_len(#[trigger] s.take(k)) == n {
        Some(s.take(choose|k: int| 0 <= k <= s.len() && byte_len(#[trigger] s.take(k)) == n))
    } else {
        None
    }
}

/// `min(a, b)`.
pub open spec fn min(a: nat, b: nat) -> nat {
    if a <= b { a } else { b }
}

// ───────────────────────────── lemmas ─────────────────────────────

/// `byte_len` adds up over concatenation.
pub proof fn lemma_byte_len_concat(a: Seq<char>, b: Seq<char>)
    ensures
        byte_len(a + b) == byte_len(a) + byte_len(b),
    decreases b.len(),
{
    if b.len() == 0 {
        assert(a + b =~= a);
    } else {
        lemma_byte_len_concat(a, b.drop_last());
        assert((a + b).drop_last() =~= a + b.drop_last());
    }
}

/// A subrange is no longer, in bytes, than the whole.
pub proof fn lemma_byte_len_subrange(s: Seq<char>, i: int, j: int)
    requires
        0 <= i <= j <= s.len(),
    ensures
        byte_len(s.subrange(i, j)) <= byte_len(s),
        byte_len(s.take(j)) == byte_len(s.take(i)) + byte_len(s.subrange(i, j)),
{
    lemma_byte_len_concat(s.take(i), s.subrange(i, j));
    lemma_byte_len_concat(s.take(j), s.skip(j));
    assert(s.take(i) + s.subrange(i, j) =~= s.take(j));
    assert(s.take(j) + s.skip(j) =~= s);
}

/// A string has at most as many characters as bytes.
pub proof fn lemma_len_le_byte_len(s: Seq<char>)
    ensures
        s.len() <= byte_len(s),
    decreases s.len(),
{
    if s.len() > 0 {
        lemma_len_le_byte_len(s.drop_last());
    }
}

/// Characterizes `leading_ws` by the first non-whitespace position.
pub proof fn lemma_leading_ws(s: Seq<char>, k: int)
    requires
        0 <= k <= s.len(),
        forall|j: int| 0 <= j < k ==> is_ws(#[trigger] s[j]),
        k == s.len() || !is_ws(s[k]),
    ensures
        leading_ws(s) == k,
    decreases k,
{
    if k > 0 {
        lemma_leading_ws(s.drop_first(), k - 1);
    }
}

/// Characterizes `leading_eq` by the first position that differs.
pub proof fn lemma_leading_eq(s: Seq<char>, c: char, k: int)
    requires
        0 <= k <= s.len(),
        forall|j: int| 0 <= j < k ==> #[trigger] s[j] == c,
        k == s.len() || s[k] != c,
    ensures
        leading_eq(s, c) == k,
    decreases k,
{
    if k > 0 {
        lemma_leading_eq(s.drop_first(), c, k - 1);
    }
}

/// Characterizes `leading_ne` by the first position holding `c`.
pub proof fn lemma_leading_ne(s: Seq<char>, c: char, k: int)
    requires
        0 <= k <= s.len(),
        forall|j: int| 0 <= j < k ==> #[trigger] s[j] != c,
        k == s.len() || s[k] == c,
    ensures
        leading_ne(s, c) == k,
    decreases k,
{
    if k > 0 {
        lemma_leading_ne(s.drop_first(), c, k - 1);
    }
}

/// `leading_ws` never exceeds the length, and what it counts is whitespace.
pub proof fn lemma_leading_ws_facts(s: Seq<char>)
    ensures
        leading_ws(s) <= s.len(),
        forall|j: int| 0 <= j < leading_ws(s) ==> is_ws(#[trigger] s[j]),
        leading_ws(s) < s.len() ==> !is_ws(s[leading_ws(s) as int]),
    decreases s.len(),
{
    if s.len() > 0 && is_ws(s[0]) {
        lemma_leading_ws_facts(s.drop_first());
        assert forall|j: int| 0 <= j < leading_ws(s) implies is_ws(#[trigger] s[j]) by {
            if j > 0 {
                assert(s[j] == s.drop_first()[j - 1]);
            }
        }
    }
}

/// `leading_eq` never exceeds the length, and what it counts equals `c`.
pub proof fn lemma_leading_eq_facts(s: Seq<char>, c: char)
    ensures
        leading_eq(s, c) <= s.len(),
        forall|j: int| 0 <= j < leading_eq(s, c) ==> #[trigger] s[j] == c,
        leading_eq(s, c) < s.len() ==> s[leading_eq(s, c) as int] != c,
    decreases s.len(),
{
    if s.len() > 0 && s[0] == c {
        lemma_leading_eq_facts(s.drop_first(), c);
        assert forall|j: int| 0 <= j < leading_eq(s, c) implies #[trigger] s[j] == c by {
            if j > 0 {
                assert(s[j] == s.drop_first()[j - 1]);
            }
        }
    }
}

/// Characterizes `trailing_eq` by the last position that differs.
pub proof fn lemma_trailing_eq(s: Seq<char>, c: char, k: int)
    requires
        0 <= k <= s.len(),
        forall|j: int| k <= j < s.len() ==> #[trigger] s[j] == c,
        k == 0 || s[k - 1] != c,
    ensures
        trailing_eq(s, c) == s.len() - k,
    decreases s.len() - k,
{
    if k < s.len() {
        lemma_trailing_eq(s.drop_last(), c, k);
    }
}

/// Characterizes `trailing_ws` by the last non-whitespace position.
pub proof fn lemma_trailing_ws(s: Seq<char>, k: int)
    requires
        0 <= k <= s.len(),
        forall|j: int| k <= j < s.len() ==> is_ws(#[trigger] s[j]),
        k == 0 || !is_ws(s[k - 1]),
    ensures
        trailing_ws(s) == s.len() - k,
    decreases s.len() - k,
{
    if k < s.len() {
        lemma_trailing_ws(s.drop_last(), k);
    }
}

/// `trailing_ws` counts whitespace at the end, up to the last character that
/// is not whitespace.
pub proof fn lemma_trailing_ws_facts(s: Seq<char>)
    ensures
        trailing_ws(s) <= s.len(),
        trailing_ws(s) < s.len() ==> !is_ws(s[s.len() - trailing_ws(s) - 1]),
    decreases s.len(),
{
    if s.len() > 0 && is_ws(s.last()) {
        lemma_trailing_ws_facts(s.drop_last());
        if trailing_ws(s) < s.len() {
            assert(s[s.len() - trailing_ws(s) - 1] == s.drop_last()[s.drop_last().len() - trailing_ws(
                s.drop_last(),
            ) - 1]);
        }
    }
}

/// `str::trim_end` is idempotent.
pub proof fn lemma_trim_end_idempotent(s: Seq<char>)
    ensures
        trim_end(trim_end(s)) == trim_end(s),
{
    let u = trim_end(s);
    lemma_trailing_ws_facts(s);
    if u.len() > 0 {
        assert(u[u.len() - 1] == s[s.len() - trailing_ws(s) - 1]);
    }
    lemma_trailing_ws(u, u.len() as int);
    assert(u.take(u.len() as int) =~= u);
}

/// At most every character is a trailing `c`.
pub proof fn lemma_trailing_eq_le(s: Seq<char>, c: char)
    ensures
        trailing_eq(s, c) <= s.len(),
    decreases s.len(),
{
    if s.len() > 0 && s.last() == c {
        lemma_trailing_eq_le(s.drop_last(), c);
    }
}

/// A longer prefix has more bytes.
pub proof fn lemma_byte_len_take_mono(s: Seq<char>, i: int, j: int)
    requires
        0 <= i < j <= s.len(),
    ensures
        byte_len(s.take(i)) < byte_len(s.take(j)),
{
    lemma_byte_len_subrange(s, i, j);
    lemma_len_le_byte_len(s.subrange(i, j));
}

// ───────────────────────────── executable helpers ─────────────────────────────

/// The characters of a string slice, in order.
pub fn chars_of(s: &str) -> (r: Vec<char>)
    ensures
        r@ == s@,
{
    let mut r: Vec<char> = Vec::new();
    for c in it: s.chars()
        invariant
            r@ == it.seq().take(it.index() as int),
    {
        r.push(c);
    }
    r
}

/// Builds a `String` from its characters (std's `FromIterator<&char>` for
/// `String`, which appends each character in turn).
#[verifier::external_body]
pub fn string_from_chars(v: &Vec<char>) -> (r: String)
    ensures
        r@ == v@,
{
    v.iter().collect()
}

/// Whether `c` is whitespace (`char::is_whitespace`).
pub fn is_whitespace(c: char) -> (r: bool)
    ensures
        r == is_ws(c),
{
    ('\t' <= c && c <= '\r') || c == ' ' || c == '\u{85}' || c == '\u{a0}' || c == '\u{1680}'
        || ('\u{2000}' <= c && c <= '\u{200a}') || c == '\u{2028}' || c == '\u{2029}'
        || c == '\u{202f}' || c == '\u{205f}' || c == '\u{3000}'
}

/// UTF-8 width of `c`.
pub fn width_of(c: char) -> (r: usize)
    ensures
        r == char_width(c),
        1 <= r <= 4,
{
    let v = c as u32;
    if v < 0x80 {
        1
    } else if v < 0x800 {
        2
    } else if v < 0x10000 {
        3
    } else {
        4
    }
}

/// `min(byte_len(s), cap)`.
pub fn byte_len_capped(s: &Vec<char>, cap: usize) -> (r: usize)
    requires
        cap <= usize::MAX - 4,
    ensures
        r == min(byte_len(s@), cap as nat),
{
    let mut acc: usize = 0;
    let mut i: usize = 0;
    while acc < cap && i < s.len()
        invariant
            i <= s.len(),
            cap <= usize::MAX - 4,
            acc == byte_len(s@.take(i as int)),
        decreases s.len() - i,
    {
        assert(s@.take(i + 1).drop_last() =~= s@.take(i as int));
        acc = acc + width_of(s[i]);
        i = i + 1;
    }
    proof {
        if i < s.len() {
            lemma_byte_len_take_mono(s@, i as int, s.len() as int);
        }
    }
    assert(s@.take(s.len() as int) =~= s@);
    if acc >= cap {
        cap
    } else {
        acc
    }
}

/// The characters `s[a..b]`.
pub fn subseq(s: &Vec<char>, a: usize, b: usize) -> (r: Vec<char>)
    requires
        a <= b <= s.len(),
    ensures
        r@ == s@.subrange(a as int, b as int),
{
    let mut r: Vec<char> = Vec::new();
    let mut i = a;
    while i < b
        invariant
            a <= i <= b <= s.len(),
            r@ == s@.subrange(a as int, i as int),
        decreases b - i,
    {
        r.push(s[i]);
        i = i + 1;
        assert(r@ =~= s@.subrange(a as int, i as int));
    }
    r
}

/// Number of leading whitespace characters.
pub fn count_leading_ws(s: &Vec<char>) -> (r: usize)
    ensures
        r == leading_ws(s@),
        r <= s.len(),
{
    let mut i: usize = 0;
    while i < s.len() && is_whitespace(s[i])
        invariant
            i <= s.len(),
            forall|j: int| 0 <= j < i ==> is_ws(#[trigger] s@[j]),
        decreases s.len() - i,
    {
        i = i + 1;
    }
    proof {
        lemma_leading_ws(s@, i as int);
    }
    i
}

/// Number of leading characters equal to `c`.
pub fn count_leading(s: &Vec<char>, c: char) -> (r: usize)
    ensures
        r == leading_eq(s@, c),
        r <= s.len(),
{
    let mut i: usize = 0;
    while i < s.len() && s[i] == c
        invariant
            i <= s.len(),
            forall|j: int| 0 <= j < i ==> #[trigger] s@[j] == c,
        decreases s.len() - i,
    {
        i = i + 1;
    }
    proof {
        lemma_leading_eq(s@, c, i as int);
    }
    i
}

/// Number of trailing whitespace characters.
pub fn count_trailing_ws(s: &Vec<char>) -> (r: usize)
    ensures
        r == trailing_ws(s@),
        r <= s.len(),
{
    let mut k: usize = s.len();
    while k > 0 && is_whitespace(s[k - 1])
        invariant
            k <= s.len(),
            forall|j: int| k <= j < s.len() ==> is_ws(#[trigger] s@[j]),
        decreases k,
    {
        k = k - 1;
    }
    proof {
        lemma_trailing_ws(s@, k as int);
    }
    s.len() - k
}

/// `str::trim_start`.
pub fn trim_start_of(s: &Vec<char>) -> (r: Vec<char>)
    ensures
        r@ == trim_start(s@),
{
    let n = count_leading_ws(s);
    let r = subseq(s, n, s.len());
    assert(r@ =~= trim_start(s@));
    r
}

/// `str::trim_end`.
pub fn trim_end_of(s: &Vec<char>) -> (r: Vec<char>)
    ensures
        r@ == trim_end(s@),
{
    let n = count_trailing_ws(s);
    let r = subseq(s, 0, s.len() - n);
    assert(r@ =~= trim_end(s@));
    r
}

/// `str::trim`.
pub fn trim_of(s: &Vec<char>) -> (r: Vec<char>)
    ensures
        r@ == trim(s@),
{
    let t = trim_start_of(s);
    trim_end_of(&t)
}

/// Whether `s` contains `c`.
pub fn contains_char(s: &Vec<char>, c: char) -> (r: bool)
    ensures
        r == s@.contains(c),
{
    let mut i: usize = 0;
    while i < s.len()
        invariant
            i <= s.len(),
            forall|j: int| 0 <= j < i ==> #[trigger] s@[j] != c,
        decreases s.len() - i,
    {
        if s[i] == c {
            assert(s@[i as int] == c);
            return true;
        }
        i = i + 1;
    }
    false
}

/// Whether the two character sequences are equal.
pub fn chars_eq(a: &Vec<char>, b: &Vec<char>) -> (r: bool)
    ensures
        r == (a@ == b@),
{
    if a.len() != b.len() {
        return false;
    }
    let mut i: usize = 0;
    while i < a.len()
        invariant
            i <= a.len() == b.len(),
            forall|j: int| 0 <= j < i ==> #[trigger] a@[j] == b@[j],
        decreases a.len() - i,
    {
        if a[i] != b[i] {
            return false;
        }
        i = i + 1;
    }
    assert(a@ =~= b@);
    true
}

/// Whether `s` begins with the characters of `p`.
pub fn starts_with_chars(s: &Vec<char>, p: &Vec<char>) -> (r: bool)
    ensures
        r == has_prefix(s@, p@),
{
    if p.len() > s.len() {
        return false;
    }
    let mut i: usize = 0;
    while i < p.len()
        invariant
            i <= p.len() <= s.len(),
            forall|j: int| 0 <= j < i ==> #[trigger] s@[j] == p@[j],
        decreases p.len() - i,
    {
        if s[i] != p[i] {
            assert(s@.take(p.len() as int)[i as int] != p@[i as int]);
            return false;
        }
        i = i + 1;
    }
    assert(s@.take(p.len() as int) =~= p@);
    true
}

/// The digit character for `d < 10`.
fn digit_char(d: usize) -> (c: char)
    requires
        d < 10,
    ensures
        c == digit(d as nat),
{
    if d == 0 { '0' }
    else if d == 1 { '1' }
    else if d == 2 { '2' }
    else if d == 3 { '3' }
    else if d == 4 { '4' }
    else if d == 5 { '5' }
    else if d == 6 { '6' }
    else if d == 7 { '7' }
    else if d == 8 { '8' }
    else { '9' }
}

/// Decimal rendering of `n`.
pub fn decimal_of(n: usize) -> (r: Vec<char>)
    ensures
        r@ == decimal(n as nat),
{
    decimal_of_wide(n as u128)
}

/// Decimal rendering of a wide `n`.
pub fn decimal_of_wide(n: u128) -> (r: Vec<char>)
    ensures
        r@ == decimal(n as nat),
    decreases n,
{
    if n < 10 {
        let mut r = Vec::new();
        r.push(digit_char(n as usize));
        r
    } else {
        let mut r = decimal_of_wide(n / 10);
        r.push(digit_char((n % 10) as usize));
        r
    }
}

/// Number of UTF-8 bytes of `s[from..]`.
pub fn byte_len_from(s: &Vec<char>, from: usize) -> (r: u128)
    requires
        from <= s.len(),
    ensures
        r == byte_len(s@.skip(from as int)),
{
    let mut acc: u128 = 0;
    let mut j: usize = from;
    assert(s@.subrange(from as int, from as int) =~= Seq::<char>::empty());
    while j < s.len()
        invariant
            from <= j <= s.len(),
            acc <= 4 * (j - from),
            acc == byte_len(s@.subrange(from as int, j as int)),
        decreases s.len() - j,
    {
        assert(s@.subrange(from as int, j + 1).drop_last() =~= s@.subrange(from as int, j as int));
        acc = acc + width_of(s[j]) as u128;
        j = j + 1;
    }
    assert(s@.subrange(from as int, s.len() as int) =~= s@.skip(from as int));
    acc
}

/// Number of trailing characters equal to `c`.
pub fn count_trailing(s: &Vec<char>, c: char) -> (r: usize)
    ensures
        r == trailing_eq(s@, c),
        r <= s.len(),
{
    let mut k: usize = s.len();
    while k > 0 && s[k - 1] == c
        invariant
            k <= s.len(),
            forall|j: int| k <= j < s.len() ==> #[trigger] s@[j] == c,
        decreases k,
    {
        k = k - 1;
    }
    proof {
        lemma_trailing_eq(s@, c, k as int);
    }
    s.len() - k
}

/// Splits `s` into its lines (`str::lines`).
pub fn split_lines(s: &Vec<char>) -> (r: Vec<Vec<char>>)
    ensures
        seqs(r@) == lines(s@),
{
    let mut r: Vec<Vec<char>> = Vec::new();
    let mut start: usize = 0;
    let mut i: usize = 0;
    assert(s@.skip(0) =~= s@);
    assert(seqs(r@) + lines(s@.skip(0)) =~= lines(s@));
    while i < s.len()
        invariant
            start <= i <= s.len(),
            forall|j: int| start <= j < i ==> #[trigger] s@[j] != '\n',
            seqs(r@) + lines(s@.skip(start as int)) == lines(s@),
        decreases s.len() - i,
    {
        if s[i] == '\n' {
            let ghost t = s@.skip(start as int);
            proof {
                assert forall|j: int| 0 <= j < i - start implies #[trigger] t[j] != '\n' by {
                    assert(t[j] == s@[start + j]);
                }
                lemma_leading_ne(t, '\n', i - start);
                assert(t.take(i - start) =~= s@.subrange(start as int, i as int));
                assert(t.skip(i - start + 1) =~= s@.skip(i + 1));
            }
            let mut end = i;
            if end > start && s[end - 1] == '\r' {
                end = end - 1;
            }
            let line = subseq(s, start, end);
            let ghost old_r = r@;
            r.push(line);
            proof {
                assert(line@ =~= strip_cr(s@.subrange(start as int, i as int)));
                assert(seqs(r@) =~= seqs(old_r).push(line@));
                assert(seqs(r@) + lines(s@.skip(i + 1)) =~= seqs(old_r) + lines(t));
            }
            start = i + 1;
        }
        i = i + 1;
    }
    if start < s.len() {
        let ghost t = s@.skip(start as int);
        proof {
            assert forall|j: int| 0 <= j < t.len() implies #[trigger] t[j] != '\n' by {
                assert(t[j] == s@[start + j]);
            }
            lemma_leading_ne(t, '\n', t.len() as int);
        }
        let line = subseq(s, start, s.len());
        let ghost old_r = r@;
        r.push(line);
        proof {
            assert(line@ =~= t);
            assert(seqs(r@) =~= seqs(old_r).push(line@));
            assert(seqs(r@) =~= seqs(old_r) + lines(t));
        }
    } else {
        assert(s@.skip(start as int) =~= Seq::<char>::empty());
        assert(seqs(r@) =~= seqs(r@) + lines(s@.skip(start as int)));
    }
    r
}

/// Column of the first character after the indentation of `raw`, for a
/// line that is not all whitespace.
pub fn indent_col_of(raw: &Vec<char>) -> (r: usize)
    requires
        trim_start(raw@).len() > 0,
    ensures
        r == indent_col(raw@),
{
    let n = count_leading_ws(raw);
    proof {
        lemma_leading_ws_facts(raw@);
    }
    n + 1
}

/// `&s[..n]` where it is defined.
pub fn byte_prefix_of(s: &Vec<char>, n: usize) -> (r: Option<Vec<char>>)
    requires
        n <= usize::MAX - 4,
    ensures
        match r {
            Some(p) => byte_prefix(s@, n as nat) == Some(p@),
            None => byte_prefix(s@, n as nat) is None,
        },
{
    let mut acc: usize = 0;
    let mut i: usize = 0;
    while acc < n && i < s.len()
        invariant
            i <= s.len(),
            n <= usize::MAX - 4,
            acc == byte_len(s@.take(i as int)),
            forall|k: int| 0 <= k < i ==> byte_len(#[trigger] s@.take(k)) < n,
        decreases s.len() - i,
    {
        proof {
            assert(s@.take(i + 1).drop_last() =~= s@.take(i as int));
        }
        acc = acc + width_of(s[i]);
        i = i + 1;
    }
    if acc == n {
        proof {
            assert forall|k: int| 0 <= k <= s.len() && byte_len(#[trigger] s@.take(k)) == n implies k == i by {
                if k > i {
                    lemma_byte_len_take_mono(s@, i as int, k);
                }
            }
        }
        Some(subseq(s, 0, i))
    } else {
        proof {
            assert forall|k: int| 0 <= k <= s.len() implies byte_len(#[trigger] s@.take(k)) != n by {
                if k > i {
                    lemma_byte_len_take_mono(s@, i as int, k);
                }
            }
        }
        None
    }
}

/// Number of occurrences of `c` in `s`.
pub fn count_char(s: &Vec<char>, c: char) -> (r: usize)
    ensures
        r == count_eq(s@, c),
{
    let mut r: usize = 0;
    let mut i: usize = 0;
    while i < s.len()
        invariant
            i <= s.len(),
            r == count_eq(s@.take(i as int), c),
            r <= i,
        decreases s.len() - i,
    {
        assert(s@.take(i + 1).drop_last() =~= s@.take(i as int));
        if s[i] == c {
            r = r + 1;
        }
        i = i + 1;
    }
    assert(s@.take(s.len() as int) =~= s@);
    r
}

/// Number of leading characters different from `c`: the index of the
/// first `c`, or the length when there is none.
pub fn count_leading_ne(s: &Vec<char>, c: char) -> (r: usize)
    ensures
        r == leading_ne(s@, c),
        r <= s.len(),
        r < s.len() ==> s@[r as int] == c,
        forall|j: int| 0 <= j < r ==> #[trigger] s@[j] != c,
{
    let mut i: usize = 0;
    while i < s.len() && s[i] != c
        invariant
            i <= s.len(),
            forall|j: int| 0 <= j < i ==> #[trigger] s@[j] != c,
        decreases s.len() - i,
    {
        i = i + 1;
    }
    proof {
        lemma_leading_ne(s@, c, i as int);
    }
    i
}

/// Whether `s` holds exactly the characters of `lit`.
pub fn eq_str(s: &Vec<char>, lit: &str) -> (r: bool)
    ensures
        r == (s@ == lit@),
{
    let l = chars_of(lit);
    chars_eq(s, &l)
}

/// Whether `s` begins with the characters of `lit`.
pub fn has_prefix_str(s: &Vec<char>, lit: &str) -> (r: bool)
    ensures
        r == has_prefix(s@, lit@),
{
    let l = chars_of(lit);
    starts_with_chars(s, &l)
}

/// Appends the characters of `s` to `v`.
pub fn push_str(v: &mut Vec<char>, s: &str)
    ensures
        final(v)@ == old(v)@ + s@,
{
    let mut t = chars_of(s);
    v.append(&mut t);
}

} // verus!
