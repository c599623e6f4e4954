use vstd::prelude::*;
use vstd::utf8::*;

verus! {

// ---------------------------------------------------------------------
// Whitespace and trimming
// ---------------------------------------------------------------------

/// The characters with the Unicode `White_Space` property: the ones that
/// `char::is_whitespace` accepts and `str::trim` removes.
pub open spec fn is_space(c: char) -> bool {
    let u = c as u32;
    ||| 0x09 <= u <= 0x0D
    ||| u == 0x20
    ||| u == 0x85
    ||| u == 0xA0
    ||| u == 0x1680
    ||| 0x2000 <= u <= 0x200A
    ||| u == 0x2028
    ||| u == 0x2029
    ||| u == 0x202F
    ||| u == 0x205F
    ||| u == 0x3000
}

/// Whether `c` is a whitespace character.
pub fn char_is_space(c: char) -> (r: bool)
    ensures
        r == is_space(c),
{
    let u = c as u32;
    (0x09 <= u && u <= 0x0D) || u == 0x20 || u == 0x85 || u == 0xA0 || u == 0x1680 || (0x2000
        <= u && u <= 0x200A) || u == 0x2028 || u == 0x2029 || u == 0x202F || u == 0x205F || u
        == 0x3000
}

/// `s` without its leading whitespace.
pub open spec fn trim_start(s: Seq<char>) -> Seq<char>
    decreases s.len(),
{
    if s.len() > 0 && is_space(s[0]) {
        trim_start(s.drop_first())
    } else {
        s
    }
}

/// `s` without its trailing whitespace.
pub open spec fn trim_end(s: Seq<char>) -> Seq<char>
    decreases s.len(),
{
    if s.len() > 0 && is_space(s.last()) {
        trim_end(s.drop_last())
    } else {
        s
    }
}

/// `s` without leading and trailing whitespace, as `str::trim` gives it.
pub open spec fn trim(s: Seq<char>) -> Seq<char> {
    trim_end(trim_start(s))
}

/// The bounds of the trimmed part of `s[lo..hi]`.
pub fn trim_range(s: &[char], lo: usize, hi: usize) -> (r: (usize, usize))
    requires
        lo <= hi <= s@.len(),
    ensures
        lo <= r.0 <= r.1 <= hi,
        s@.subrange(r.0 as int, r.1 as int) == trim(s@.subrange(lo as int, hi as int)),
{
    let mut i = lo;
    while i < hi && char_is_space(s[i])
        invariant
            lo <= i <= hi <= s@.len(),
            trim_start(s@.subrange(i as int, hi as int)) == trim_start(
                s@.subrange(lo as int, hi as int),
            ),
        decreases hi - i,
    {
        assert(s@.subrange(i as int, hi as int).drop_first() =~= s@.subrange(
            i + 1,
            hi as int,
        ));
        i = i + 1;
    }
    let mut j = hi;
    while j > i && char_is_space(s[j - 1])
        invariant
            lo <= i <= j <= hi <= s@.len(),
            trim_start(s@.subrange(lo as int, hi as int)) == s@.subrange(i as int, hi as int),
            trim_end(s@.subrange(i as int, j as int)) == trim_end(
                s@.subrange(i as int, hi as int),
            ),
        decreases j - i,
    {
        assert(s@.subrange(i as int, j as int).drop_last() =~= s@.subrange(
            i as int,
            j - 1,
        ));
        j = j - 1;
    }
    (i, j)
}

/// Whether `s` is at least two characters long and starts and ends with a
/// double quote.
pub open spec fn is_quoted(s: Seq<char>) -> bool {
    s.len() >= 2 && s[0] == '"' && s.last() == '"'
}

/// `s` without its first and last character.
pub open spec fn unquote(s: Seq<char>) -> Seq<char> {
    s.subrange(1, s.len() - 1)
}

/// `s` without its surrounding double quotes, when it has them.
pub open spec fn strip_quotes(s: Seq<char>) -> Seq<char> {
    if is_quoted(s) {
        unquote(s)
    } else {
        s
    }
}

/// Whether `c` does not occur in `s`.
pub open spec fn lacks(s: Seq<char>, c: char) -> bool {
    forall|i: int| 0 <= i < s.len() ==> s[i] != c
}

/// A concatenation lacks what both parts lack.
pub proof fn lemma_lacks_concat(a: Seq<char>, b: Seq<char>, c: char)
    requires
        lacks(a, c),
        lacks(b, c),
    ensures
        lacks(a + b, c),
{
    assert forall|i: int| 0 <= i < (a + b).len() implies (a + b)[i] != c by {
        if i < a.len() {
            assert((a + b)[i] == a[i]);
        } else {
            assert((a + b)[i] == b[i - a.len()]);
        }
    }
}

/// A text in double quotes is its own trim, and unquoting it gives the text.
pub proof fn lemma_quoted(d: Seq<char>)
    ensures
        ({
            let q = seq!['"'] + d + seq!['"'];
            &&& trim(q) == q
            &&& is_quoted(q)
            &&& unquote(q) == d
            &&& q.len() > 0
            &&& q[0] == '"'
            &&& q.last() == '"'
        }),
{
    let q = seq!['"'] + d + seq!['"'];
    assert(!is_space('"'));
    lemma_trim_unchanged(q);
    assert(unquote(q) =~= d);
}

/// A sequence that neither starts nor ends with whitespace is its own trim.
pub proof fn lemma_trim_unchanged(s: Seq<char>)
    requires
        s.len() > 0 ==> !is_space(s[0]) && !is_space(s.last()),
    ensures
        trim(s) == s,
{
}

// ---------------------------------------------------------------------
// Decimal numbers
// ---------------------------------------------------------------------

/// An ASCII decimal digit.
pub open spec fn is_digit(c: char) -> bool {
    '0' <= c <= '9'
}

/// Every character of `s` is a decimal digit.
pub open spec fn all_digits(s: Seq<char>) -> bool {
    forall|i: int| 0 <= i < s.len() ==> #[trigger] is_digit(s[i])
}

/// The number that the digits `s` spell, most significant first.
pub open spec fn digits_value(s: Seq<char>) -> nat
    decreases s.len(),
{
    if s.len() == 0 {
        0
    } else {
        digits_value(s.drop_last()) * 10 + (s.last() as int - '0' as int) as nat
    }
}

/// The digits that remain once an optional leading `+` is taken off.
pub open spec fn unsigned_digits(s: Seq<char>) -> Seq<char> {
    if s.len() > 0 && s[0] == '+' {
        s.drop_first()
    } else {
        s
    }
}

/// What `str::parse::<u64>` gives for `s`: a number for an optional `+`
/// followed by at least one decimal digit, when the value fits in a `u64`.
pub open spec fn parse_u64_spec(s: Seq<char>) -> Option<u64> {
    let d = unsigned_digits(s);
    if d.len() > 0 && all_digits(d) && digits_value(d) <= u64::MAX {
        Some(digits_value(d) as u64)
    } else {
        None
    }
}

/// The value of a digit prefix is at most that of the whole digit string.
pub proof fn lemma_digits_prefix(s: Seq<char>, m: int)
    requires
        all_digits(s),
        0 <= m <= s.len(),
    ensures
        digits_value(s.take(m)) <= digits_value(s),
    decreases s.len() - m,
{
    if m < s.len() {
        assert(s.drop_last().take(m) =~= s.take(m));
        assert(all_digits(s.drop_last())) by {
            assert forall|i: int| 0 <= i < s.drop_last().len() implies #[trigger] is_digit(
                s.drop_last()[i],
            ) by {
                assert(is_digit(s[i]));
            }
        }
        lemma_digits_prefix(s.drop_last(), m);
    } else {
        assert(s.take(m) =~= s);
    }
}

/// The number spelt by `s[lo..hi]`, as `str::parse::<u64>` reads it.
pub fn parse_u64_chars(s: &[char], lo: usize, hi: usize) -> (r: Option<u64>)
    requires
        lo <= hi <= s@.len(),
    ensures
        r == parse_u64_spec(s@.subrange(lo as int, hi as int)),
{
    let ghost whole = s@.subrange(lo as int, hi as int);
    let mut start = lo;
    if start < hi && s[start] == '+' {
        start = start + 1;
    }
    let ghost d = s@.subrange(start as int, hi as int);
    assert(unsigned_digits(whole) =~= d);
    if start == hi {
        return None;
    }
    let mut v: u64 = 0;
    let mut k = start;
    while k < hi
        invariant
            lo <= start <= k <= hi <= s@.len(),
            d == s@.subrange(start as int, hi as int),
            whole == s@.subrange(lo as int, hi as int),
            unsigned_digits(whole) == d,
            d.len() > 0,
            all_digits(s@.subrange(start as int, k as int)),
            v == digits_value(s@.subrange(start as int, k as int)),
        decreases hi - k,
    {
        let c = s[k];
        if !('0' <= c && c <= '9') {
            assert(!is_digit(d[k - start]));
            return None;
        }
        let ghost next = s@.subrange(start as int, k + 1);
        assert(next.drop_last() =~= s@.subrange(start as int, k as int));
        assert(all_digits(next)) by {
            assert forall|i: int| 0 <= i < next.len() implies #[trigger] is_digit(next[i]) by {
                if i < next.len() - 1 {
                    assert(is_digit(s@.subrange(start as int, k as int)[i]));
                }
            }
        }
        let dgt: u64 = (c as u32 - 48) as u64;
        assert(digits_value(next) == v * 10 + dgt);
        match v.checked_mul(10) {
            None => {
                proof {
                    if all_digits(d) {
                        assert(d.take(next.len() as int) =~= next);
                        lemma_digits_prefix(d, next.len() as int);
                    }
                }
                return None;
            },
            Some(m) => match m.checked_add(dgt) {
                None => {
                    proof {
                        if all_digits(d) {
                            assert(d.take(next.len() as int) =~= next);
                            lemma_digits_prefix(d, next.len() as int);
                        }
                    }
                    return None;
                },
                Some(n) => {
                    v = n;
                },
            },
        }
        k = k + 1;
    }
    assert(s@.subrange(start as int, k as int) =~= d);
    Some(v)
}

/// The decimal digit character for `d < 10`.
pub open spec fn digit_char(d: nat) -> char {
    ((d + 48) as u8) as char
}

/// The code of a digit character.
pub proof fn lemma_digit_char(d: nat)
    requires
        d < 10,
    ensures
        digit_char(d) as int == d + 48,
        is_digit(digit_char(d)),
{
    let b: u8 = (d + 48) as u8;
    assert(b as int == d + 48);
    assert((b as char) as int == b as int);
}

/// The decimal spelling of `n`, without sign or leading zeros: what
/// `Display` writes for an unsigned integer.
pub open spec fn dec_chars(n: nat) -> Seq<char>
    decreases n,
{
    if n < 10 {
        seq![digit_char(n)]
    } else {
        dec_chars(n / 10).push(digit_char(n % 10))
    }
}

/// Reading back the decimal spelling of `n` gives `n`.
pub proof fn lemma_dec_chars_parse(n: nat)
    ensures
        all_digits(dec_chars(n)),
        dec_chars(n).len() > 0,
        digits_value(dec_chars(n)) == n,
        dec_chars(n)[0] != '+',
        !is_space(dec_chars(n)[0]),
        !is_space(dec_chars(n).last()),
        lacks(dec_chars(n), ','),
        lacks(dec_chars(n), '\n'),
        lacks(dec_chars(n), ':'),
    decreases n,
{
    lemma_digit_char(n % 10);
    if n < 10 {
        let s = dec_chars(n);
        assert(s == seq![digit_char(n)]);
        assert(s.drop_last() =~= Seq::<char>::empty());
        assert(digits_value(s.drop_last()) == 0);
        assert(s.last() == digit_char(n));
        assert('0' as int == 48);
        assert(digits_value(dec_chars(n)) == n);
    }
    if n >= 10 {
        lemma_dec_chars_parse(n / 10);
        let s = dec_chars(n);
        assert(s.drop_last() =~= dec_chars(n / 10));
        assert(n == (n / 10) * 10 + n % 10) by (nonlinear_arith);
        assert(s.last() == digit_char(n % 10));
        assert('0' as int == 48);
        assert(digits_value(s) == digits_value(dec_chars(n / 10)) * 10 + (s.last() as int - '0' as int) as nat);
        assert(digits_value(dec_chars(n / 10)) == n / 10);
        assert(digits_value(s) == (n / 10) * 10 + n % 10);
        assert forall|i: int| 0 <= i < s.len() implies #[trigger] is_digit(s[i]) by {
            if i < s.len() - 1 {
                assert(is_digit(dec_chars(n / 10)[i]));
            }
        }
    }
}

/// `str::parse::<u64>` reads the decimal spelling of `n` as `n`.
pub proof fn lemma_parse_dec(n: u64)
    ensures
        parse_u64_spec(dec_chars(n as nat)) == Some(n),
{
    lemma_dec_chars_parse(n as nat);
}

fn digit(d: u64) -> (c: char)
    requires
        d < 10,
    ensures
        c == digit_char(d as nat),
{
    ((d as u8) + 48) as char
}

/// Appends the decimal spelling of `n` to `out`.
pub fn append_decimal(out: &mut String, n: u64)
    ensures
        final(out)@ == old(out)@ + dec_chars(n as nat),
    decreases n,
{
    if n >= 10 {
        append_decimal(out, n / 10);
    }
    string_push(out, digit(n % 10));
    assert(out@ =~= old(out)@ + dec_chars(n as nat));
}

/// The decimal spelling of `n`.
pub fn decimal_string(n: u64) -> (s: String)
    ensures
        s@ == dec_chars(n as nat),
{
    let mut s = String::new();
    append_decimal(&mut s, n);
    assert(s@ =~= dec_chars(n as nat));
    s
}

// ---------------------------------------------------------------------
// Searching and splitting
// ---------------------------------------------------------------------

/// The position of the first `c` in `s`, if any.
pub open spec fn index_of(s: Seq<char>, c: char) -> Option<int>
    decreases s.len(),
{
    if s.len() == 0 {
        None
    } else if s[0] == c {
        Some(0)
    } else {
        match index_of(s.drop_first(), c) {
            Some(i) => Some(i + 1),
            None => None,
        }
    }
}

/// [`index_of`] gives the first position of `c`, and `None` only when `c` does
/// not occur.
pub proof fn lemma_index_of(s: Seq<char>, c: char)
    ensures
        match index_of(s, c) {
            Some(k) => 0 <= k < s.len() && s[k] == c && forall|j: int| 0 <= j < k ==> s[j] != c,
            None => forall|j: int| 0 <= j < s.len() ==> s[j] != c,
        },
    decreases s.len(),
{
    if s.len() > 0 && s[0] != c {
        lemma_index_of(s.drop_first(), c);
        match index_of(s.drop_first(), c) {
            Some(k) => {
                assert forall|j: int| 0 <= j < k + 1 implies s[j] != c by {
                    if j > 0 {
                        assert(s[j] == s.drop_first()[j - 1]);
                    }
                }
            },
            None => {
                assert forall|j: int| 0 <= j < s.len() implies s[j] != c by {
                    if j > 0 {
                        assert(s[j] == s.drop_first()[j - 1]);
                    }
                }
            },
        }
    }
}

/// The first `c` after a part without `c` is the one that ends the part.
pub proof fn lemma_index_of_after(a: Seq<char>, c: char, r: Seq<char>)
    requires
        forall|j: int| 0 <= j < a.len() ==> a[j] != c,
    ensures
        index_of(a + seq![c] + r, c) == Some(a.len() as int),
{
    let s = a + seq![c] + r;
    lemma_index_of(s, c);
    assert(s[a.len() as int] == c);
    match index_of(s, c) {
        Some(k) => {
            if k < a.len() {
                assert(s[k] == a[k]);
            }
        },
        None => {},
    }
}

/// The position of the first `c` in `s[lo..hi]`, counted from the start of `s`.
pub fn find_char(s: &[char], lo: usize, hi: usize, c: char) -> (r: Option<usize>)
    requires
        lo <= hi <= s@.len(),
    ensures
        match index_of(s@.subrange(lo as int, hi as int), c) {
            Some(k) => r == Some((lo + k) as usize),
            None => r is None,
        },
{
    let ghost t = s@.subrange(lo as int, hi as int);
    proof {
        lemma_index_of(t, c);
    }
    let mut j = lo;
    while j < hi
        invariant
            lo <= j <= hi <= s@.len(),
            t == s@.subrange(lo as int, hi as int),
            forall|i: int| lo <= i < j ==> s@[i] != c,
        decreases hi - j,
    {
        if s[j] == c {
            proof {
                lemma_index_of(t, c);
                assert(t[j - lo] == c);
                match index_of(t, c) {
                    Some(k) => {
                        if k < j - lo {
                            assert(t[k] == s@[lo + k]);
                        }
                        if k > j - lo {
                            assert(t[j - lo] != c);
                        }
                    },
                    None => {},
                }
            }
            return Some(j);
        }
        j = j + 1;
    }
    proof {
        lemma_index_of(t, c);
        match index_of(t, c) {
            Some(k) => {
                assert(t[k] == s@[lo + k]);
            },
            None => {},
        }
    }
    None
}

/// `s` cut at its commas into at most `n` parts, as `str::splitn(n, ',')`
/// does: the last part keeps the rest of `s`, commas included.
pub open spec fn split_fields(s: Seq<char>, n: nat) -> Seq<Seq<char>>
    decreases n,
{
    if n <= 1 {
        seq![s]
    } else {
        match index_of(s, ',') {
            Some(i) => seq![s.take(i)] + split_fields(s.skip(i + 1), (n - 1) as nat),
            None => seq![s],
        }
    }
}

/// The texts of the ranges `parts` of `s`.
pub open spec fn range_texts(s: Seq<char>, parts: Seq<(usize, usize)>) -> Seq<Seq<char>> {
    parts.map_values(|p: (usize, usize)| s.subrange(p.0 as int, p.1 as int))
}

/// The ranges of the parts of `s[lo..hi]` cut at its commas into at most `n`
/// parts.
pub fn split_commas(s: &[char], lo: usize, hi: usize, n: usize) -> (r: Vec<(usize, usize)>)
    requires
        lo <= hi <= s@.len(),
        n >= 1,
    ensures
        forall|i: int| 0 <= i < r@.len() ==> lo <= (#[trigger] r@[i]).0 <= r@[i].1 <= hi,
        range_texts(s@, r@) == split_fields(s@.subrange(lo as int, hi as int), n as nat),
{
    let ghost whole = split_fields(s@.subrange(lo as int, hi as int), n as nat);
    let mut parts: Vec<(usize, usize)> = Vec::new();
    let mut cur = lo;
    let mut left = n;
    assert(range_texts(s@, parts@) =~= Seq::<Seq<char>>::empty());
    loop
        invariant
            lo <= cur <= hi <= s@.len(),
            1 <= left <= n,
            forall|i: int| 0 <= i < parts@.len() ==> lo <= (#[trigger] parts@[i]).0 <= parts@[i].1
                <= hi,
            whole == split_fields(s@.subrange(lo as int, hi as int), n as nat),
            whole == range_texts(s@, parts@) + split_fields(
                s@.subrange(cur as int, hi as int),
                left as nat,
            ),
        decreases left,
    {
        let ghost before = parts@;
        let ghost rest = s@.subrange(cur as int, hi as int);
        if left == 1 {
            parts.push((cur, hi));
            assert(range_texts(s@, parts@) =~= range_texts(s@, before) + seq![rest]);
            assert(whole =~= range_texts(s@, parts@));
            return parts;
        }
        proof {
            lemma_index_of(rest, ',');
        }
        match find_char(s, cur, hi, ',') {
            Some(c) => {
                parts.push((cur, c));
                assert(range_texts(s@, parts@) =~= range_texts(s@, before) + seq![
                    s@.subrange(cur as int, c as int),
                ]);
                assert(rest.take(c - cur) =~= s@.subrange(cur as int, c as int));
                assert(rest.skip(c - cur + 1) =~= s@.subrange(c + 1, hi as int));
                cur = c + 1;
                left = left - 1;
            },
            None => {
                parts.push((cur, hi));
                assert(range_texts(s@, parts@) =~= range_texts(s@, before) + seq![rest]);
                assert(whole =~= range_texts(s@, parts@));
                return parts;
            },
        }
    }
}

/// The fields `fs` joined by commas.
pub open spec fn join_fields(fs: Seq<Seq<char>>) -> Seq<char>
    decreases fs.len(),
{
    if fs.len() == 0 {
        seq![]
    } else if fs.len() == 1 {
        fs[0]
    } else {
        fs[0] + seq![','] + join_fields(fs.drop_first())
    }
}

/// Adding a field at the end adds a comma and the field at the end of the text.
pub proof fn lemma_join_fields_push(fs: Seq<Seq<char>>, x: Seq<char>)
    requires
        fs.len() >= 1,
    ensures
        join_fields(fs.push(x)) == join_fields(fs) + seq![','] + x,
    decreases fs.len(),
{
    let k = seq![','];
    if fs.len() == 1 {
        assert(fs.push(x).drop_first() =~= seq![x]);
        assert(join_fields(seq![x]) == x);
    } else {
        let rest = fs.drop_first();
        assert(fs.push(x).drop_first() =~= rest.push(x));
        lemma_join_fields_push(rest, x);
        assert(fs[0] + k + (join_fields(rest) + k + x) =~= fs[0] + k + join_fields(rest) + k + x);
    }
}

/// Fields that lack a character other than the comma join into a text that
/// lacks it.
pub proof fn lemma_join_fields_lacks(fs: Seq<Seq<char>>, c: char)
    requires
        c != ',',
        forall|i: int| 0 <= i < fs.len() ==> lacks(#[trigger] fs[i], c),
    ensures
        lacks(join_fields(fs), c),
    decreases fs.len(),
{
    if fs.len() == 1 {
        assert(lacks(fs[0], c));
    } else if fs.len() > 1 {
        let rest = fs.drop_first();
        assert forall|i: int| 0 <= i < rest.len() implies lacks(#[trigger] rest[i], c) by {
            assert(rest[i] == fs[i + 1]);
        }
        lemma_join_fields_lacks(rest, c);
        assert(lacks(fs[0], c));
        lemma_lacks_concat(fs[0], seq![','], c);
        lemma_lacks_concat(fs[0] + seq![','], join_fields(rest), c);
    }
}

/// Cutting fields joined by commas gives back the fields, when none but the
/// last holds a comma.
pub proof fn lemma_split_join_fields(fs: Seq<Seq<char>>)
    requires
        fs.len() >= 1,
        forall|i: int, j: int|
            0 <= i < fs.len() - 1 && 0 <= j < fs[i].len() ==> #[trigger] fs[i][j] != ',',
    ensures
        split_fields(join_fields(fs), fs.len()) == fs,
    decreases fs.len(),
{
    if fs.len() == 1 {
        assert(seq![fs[0]] =~= fs);
    } else {
        let rest = fs.drop_first();
        assert forall|i: int, j: int|
            0 <= i < rest.len() - 1 && 0 <= j < rest[i].len() implies #[trigger] rest[i][j]
            != ',' by {
            assert(rest[i] == fs[i + 1]);
        }
        lemma_split_join_fields(rest);
        let a = fs[0];
        let r = join_fields(rest);
        assert forall|j: int| 0 <= j < a.len() implies a[j] != ',' by {
            assert(fs[0][j] != ',');
        }
        lemma_index_of_after(a, ',', r);
        let s = join_fields(fs);
        assert(s.take(a.len() as int) =~= a);
        assert(s.skip(a.len() as int + 1) =~= r);
        assert(seq![a] + rest =~= fs);
    }
}

/// Appends the UTF-8 bytes of `s` to `out`.
pub fn append_utf8(out: &mut Vec<u8>, s: &str)
    ensures
        final(out)@ == old(out)@ + encode_utf8(s@),
{
    let b = s.as_bytes();
    let mut k: usize = 0;
    while k < b.len()
        invariant
            k <= b@.len(),
            b@ == encode_utf8(s@),
            out@ == old(out)@ + b@.take(k as int),
        decreases b@.len() - k,
    {
        out.push(b[k]);
        assert(b@.take(k + 1) =~= b@.take(k as int).push(b@[k as int]));
        k = k + 1;
    }
    assert(b@.take(k as int) =~= b@);
}


// ---------------------------------------------------------------------
// Strings, characters and UTF-8
// ---------------------------------------------------------------------

/// The error of `std::str::from_utf8`, carried through without looking inside.
#[verifier::external_type_specification]
#[verifier::external_body]
pub struct ExUtf8Error(std::str::Utf8Error);

/// Calls `std::str::from_utf8`. As its documentation says, it succeeds exactly
/// when `bytes` is well-formed UTF-8, and then the string slice it returns
/// holds the characters that `bytes` encodes. Nothing is claimed of the
/// contents of the error value.
#[verifier::external_body]
pub fn str_from_utf8(bytes: &[u8]) -> (r: Result<&str, std::str::Utf8Error>)
    ensures
        r is Ok <==> valid_utf8(bytes@),
        r matches Ok(s) ==> s@ == decode_utf8(bytes@),
{
    std::str::from_utf8(bytes)
}

/// Calls `String::push`, which appends the character `c` at the end of `s`.
#[verifier::external_body]
pub fn string_push(s: &mut String, c: char)
    ensures
        final(s)@ == old(s)@.push(c),
{
    s.push(c)
}

/// The characters of `s`, in order.
pub fn chars_of(s: &str) -> (v: Vec<char>)
    ensures
        v@ == s@,
{
    broadcast use vstd::string::group_string_axioms;

    let mut v: Vec<char> = Vec::new();
    for c in it: s.chars()
        invariant
            v@.len() == it.index(),
            forall|i: int| 0 <= i < v@.len() ==> v@[i] == it.seq()[i],
            it.seq() == s@,
    {
        v.push(c);
    }
    assert(v@ =~= s@);
    v
}

/// A string holding the characters `s[lo..hi]`.
pub fn string_of(s: &[char], lo: usize, hi: usize) -> (r: String)
    requires
        lo <= hi <= s@.len(),
    ensures
        r@ == s@.subrange(lo as int, hi as int),
{
    let mut r = String::new();
    let mut k = lo;
    while k < hi
        invariant
            lo <= k <= hi <= s@.len(),
            r@ == s@.subrange(lo as int, k as int),
        decreases hi - k,
    {
        string_push(&mut r, s[k]);
        assert(r@ =~= s@.subrange(lo as int, k + 1));
        k = k + 1;
    }
    r
}

/// Whether `s[lo..hi]` is the character sequence `t`.
pub fn chars_equal(s: &[char], lo: usize, hi: usize, t: &[char]) -> (r: bool)
    requires
        lo <= hi <= s@.len(),
    ensures
        r == (s@.subrange(lo as int, hi as int) == t@),
{
    if hi - lo != t.len() {
        return false;
    }
    let mut k: usize = 0;
    while k < t.len()
        invariant
            lo <= hi <= s@.len(),
            hi - lo == t@.len(),
            k <= t@.len(),
            forall|i: int| 0 <= i < k ==> s@[lo + i] == t@[i],
        decreases t@.len() - k,
    {
        if s[lo + k] != t[k] {
            assert(s@.subrange(lo as int, hi as int)[k as int] != t@[k as int]);
            return false;
        }
        k = k + 1;
    }
    assert(s@.subrange(lo as int, hi as int) =~= t@);
    true
}

/// Whether `s[lo..hi]` is the text of the string literal `t`.
pub fn chars_equal_str(s: &[char], lo: usize, hi: usize, t: &str) -> (r: bool)
    requires
        lo <= hi <= s@.len(),
    ensures
        r == (s@.subrange(lo as int, hi as int) == t@),
{
    let tc = chars_of(t);
    chars_equal(s, lo, hi, &tc)
}

/// The UTF-8 encoding of a concatenation is the concatenation of the encodings.
pub proof fn lemma_encode_concat(a: Seq<char>, b: Seq<char>)
    ensures
        encode_utf8(a + b) == encode_utf8(a) + encode_utf8(b),
    decreases a.len(),
{
    if a.len() == 0 {
        assert(a + b =~= b);
    } else {
        assert((a + b).drop_first() =~= a.drop_first() + b);
        lemma_encode_concat(a.drop_first(), b);
    }
}

/// A single character encodes as its scalar.
pub proof fn lemma_encode_single(c: char)
    ensures
        encode_utf8(seq![c]) == encode_scalar(c as u32),
{
    let s = seq![c];
    assert(s.drop_first() =~= Seq::<char>::empty());
    assert(encode_utf8(s.drop_first()) =~= Seq::<u8>::empty());
    assert(s[0] == c);
    assert(encode_utf8(s) =~= encode_scalar(c as u32));
}

/// The bytes of a character outside ASCII are all at least `0x80`.
pub proof fn lemma_encode_high_char(c: char)
    requires
        (c as u32) >= 0x80,
    ensures
        forall|i: int| 0 <= i < encode_utf8(seq![c]).len() ==> encode_utf8(seq![c])[i] >= 0x80,
{
    lemma_encode_single(c);
    assert(forall|x: u32| (0xC0u8 | ((x >> 6) & 0x1F) as u8) >= 0xC0u8) by (bit_vector);
    assert(forall|x: u32| (0xE0u8 | ((x >> 12) & 0x0F) as u8) >= 0xE0u8) by (bit_vector);
    assert(forall|x: u32| (0xF0u8 | ((x >> 18) & 0x7) as u8) >= 0xF0u8) by (bit_vector);
    assert(forall|x: u32| (0x80u8 | (x & 0x3F) as u8) >= 0x80u8) by (bit_vector);
    assert(forall|x: u32| (0x80u8 | ((x >> 6) & 0x3F) as u8) >= 0x80u8) by (bit_vector);
    assert(forall|x: u32| (0x80u8 | ((x >> 12) & 0x3F) as u8) >= 0x80u8) by (bit_vector);
}

/// A character other than the ASCII character `x` encodes without the byte
/// of `x`.
pub proof fn lemma_encode_char_avoids(c: char, x: char)
    requires
        (x as u32) < 0x80,
        c != x,
    ensures
        forall|i: int|
            0 <= i < encode_utf8(seq![c]).len() ==> encode_utf8(seq![c])[i] != x as u8,
{
    if (c as u32) < 0x80 {
        lemma_encode_ascii_char(c);
        vstd::utf8::char_u32_cast(c, c as u32);
        vstd::utf8::char_u32_cast(x, x as u32);
        assert((c as u32) != (x as u32));
    } else {
        lemma_encode_high_char(c);
    }
}

/// A sequence without the ASCII character `x` encodes without the byte of `x`.
pub proof fn lemma_encode_avoids(s: Seq<char>, x: char)
    requires
        (x as u32) < 0x80,
        forall|i: int| 0 <= i < s.len() ==> s[i] != x,
    ensures
        forall|i: int| 0 <= i < encode_utf8(s).len() ==> encode_utf8(s)[i] != x as u8,
    decreases s.len(),
{
    if s.len() > 0 {
        lemma_encode_avoids(s.drop_first(), x);
        lemma_encode_char_avoids(s[0], x);
        assert(s =~= seq![s[0]] + s.drop_first());
        lemma_encode_concat(seq![s[0]], s.drop_first());
        let a = encode_utf8(seq![s[0]]);
        let b = encode_utf8(s.drop_first());
        assert forall|i: int| 0 <= i < (a + b).len() implies (a + b)[i] != x as u8 by {
            if i < a.len() {
                assert((a + b)[i] == a[i]);
            } else {
                assert((a + b)[i] == b[i - a.len()]);
            }
        }
    }
}

/// The encoding of a non-empty sequence ends with that of its last character.
pub proof fn lemma_encode_last(s: Seq<char>)
    requires
        s.len() > 0,
    ensures
        encode_utf8(s) == encode_utf8(s.drop_last()) + encode_utf8(seq![s.last()]),
        encode_utf8(seq![s.last()]).len() > 0,
{
    assert(s =~= s.drop_last() + seq![s.last()]);
    lemma_encode_concat(s.drop_last(), seq![s.last()]);
    lemma_encode_single(s.last());
}

/// An ASCII character encodes as the single byte of its code.
pub proof fn lemma_encode_ascii_char(c: char)
    requires
        (c as u32) < 0x80,
    ensures
        encode_utf8(seq![c]) == seq![c as u8],
{
    let v = c as u32;
    lemma_encode_single(c);
    assert(v < 0x80 ==> (v & 0x7F) as u8 == v as u8) by (bit_vector);
    assert(encode_utf8(seq![c]) =~= seq![c as u8]);
}

} // verus!
