//! Text primitives for the JSON-backed records.
//!
//! The two records live on disk as small JSON documents.  The library
//! writes and reads that text itself, character by character: decimal
//! numbers, quoted strings with `\"` and `\\` escapes, and calendar
//! dates in the `YYYY-MM-DD` form.  Each piece has a writer whose
//! output is pinned exactly, a reader whose result equals a
//! specification-level parse, and a proof that reading back what was
//! written returns the value that was written.

use vstd::prelude::*;
use crate::date::Date;

verus! {

/// A decimal digit character.
pub open spec fn is_digit_char(c: char) -> bool {
    '0' <= c && c <= '9'
}

/// The numeric value of a digit character.
pub open spec fn digit_val(c: char) -> int {
    c as u32 - '0' as u32
}

/// The digit character of a value below ten.
pub open spec fn digit_char(d: int) -> char {
    if d == 0 {
        '0'
    } else if d == 1 {
        '1'
    } else if d == 2 {
        '2'
    } else if d == 3 {
        '3'
    } else if d == 4 {
        '4'
    } else if d == 5 {
        '5'
    } else if d == 6 {
        '6'
    } else if d == 7 {
        '7'
    } else if d == 8 {
        '8'
    } else {
        '9'
    }
}

/// Digit characters and digit values invert each other.
pub proof fn lemma_digit_inverse(d: int)
    requires
        0 <= d < 10,
    ensures
        is_digit_char(digit_char(d)),
        digit_val(digit_char(d)) == d,
{
}

/// The decimal text of a number: its digits in order, no sign, no
/// leading zero except for the single digit of zero itself.
pub open spec fn dec_of(n: nat) -> Seq<char>
    decreases n,
{
    if n < 10 {
        seq![digit_char(n as int)]
    } else {
        dec_of(n / 10).push(digit_char((n % 10) as int))
    }
}

/// The value a digit sequence denotes.
pub open spec fn val_of(s: Seq<char>) -> int
    decreases s.len(),
{
    if s.len() == 0 {
        0
    } else {
        val_of(s.drop_last()) * 10 + digit_val(s.last())
    }
}

/// The decimal text of a number is made of digits, begins with a zero
/// only for zero itself, and denotes the number back.
pub proof fn lemma_dec_of(n: nat)
    ensures
        dec_of(n).len() >= 1,
        forall|i: int| 0 <= i < dec_of(n).len() ==> is_digit_char(#[trigger] dec_of(n)[i]),
        dec_of(n)[0] == '0' <==> n == 0,
        val_of(dec_of(n)) == n,
    decreases n,
{
    lemma_digit_inverse((n % 10) as int);
    if n < 10 {
        lemma_digit_inverse(n as int);
        let s1 = seq![digit_char(n as int)];
        assert(dec_of(n) == s1);
        assert(s1.drop_last() =~= Seq::<char>::empty());
        assert(val_of(Seq::<char>::empty()) == 0);
        assert(s1.last() == digit_char(n as int));
        assert(val_of(s1) == val_of(s1.drop_last()) * 10 + digit_val(s1.last()));
    } else {
        lemma_dec_of(n / 10);
        let s = dec_of(n / 10);
        assert(dec_of(n) == s.push(digit_char((n % 10) as int)));
        assert(dec_of(n).drop_last() =~= s);
        assert(forall|i: int|
            0 <= i < dec_of(n).len() - 1 ==> #[trigger] dec_of(n)[i] == s[i]);
        assert(val_of(dec_of(n)) == val_of(s) * 10 + (n % 10));
    }
}

/// Append the decimal text of `n`.
pub fn append_u32(out: &mut String, n: u32)
    ensures
        final(out)@ == old(out)@ + dec_of(n as nat),
    decreases n,
{
    if n >= 10 {
        append_u32(out, n / 10);
    }
    let d = n % 10;
    let digits = "0123456789";
    proof {
        reveal_strlit("0123456789");
        assert(digits@.subrange(d as int, d as int + 1) =~= seq![digits@[d as int]]);
        assert(digits@[d as int] == digit_char(d as int));
        if n >= 10 {
            assert(old(out)@ + dec_of((n / 10) as nat) + seq![digit_char(d as int)] =~= old(out)@
                + dec_of(n as nat));
        } else {
            assert(old(out)@ + seq![digit_char(d as int)] =~= old(out)@ + dec_of(n as nat));
        }
    }
    out.append(digits.substring_char(d as usize, d as usize + 1));
}

/// How many digit characters stand at `from`, consecutively.
pub open spec fn digit_run_len(s: Seq<char>, from: int) -> int
    decreases s.len() - from,
{
    if from < 0 || from >= s.len() || !is_digit_char(s[from]) {
        0
    } else {
        1 + digit_run_len(s, from + 1)
    }
}

/// A run of digits read left to right: once all of a prefix are digits
/// and the next position is no digit (or the end), the run is exactly
/// that prefix.
pub proof fn lemma_digit_run(s: Seq<char>, from: int, to: int)
    requires
        0 <= from <= to <= s.len(),
        forall|k: int| from <= k < to ==> is_digit_char(#[trigger] s[k]),
        to == s.len() || !is_digit_char(s[to]),
    ensures
        digit_run_len(s, from) == to - from,
    decreases to - from,
{
    if from < to {
        lemma_digit_run(s, from + 1, to);
    }
}

/// A digit sequence never denotes a negative value.
pub proof fn lemma_val_of_nonneg(s: Seq<char>)
    requires
        forall|k: int| 0 <= k < s.len() ==> is_digit_char(#[trigger] s[k]),
    ensures
        val_of(s) >= 0,
    decreases s.len(),
{
    if s.len() > 0 {
        assert(forall|k: int|
            0 <= k < s.drop_last().len() ==> is_digit_char(#[trigger] s.drop_last()[k]));
        lemma_val_of_nonneg(s.drop_last());
        assert(is_digit_char(s.last()));
    }
}

/// The number standing at `from`: the whole consecutive digit run,
/// refused when there is no digit, when a leading zero precedes further
/// digits, or when the value does not fit in 32 bits.  On success, the
/// value and the position after the run.
pub open spec fn parse_u32_at(s: Seq<char>, from: int) -> Option<(u32, int)> {
    let k = digit_run_len(s, from);
    if k == 0 {
        None
    } else if k > 1 && s[from] == '0' {
        None
    } else if val_of(s.subrange(from, from + k)) > u32::MAX {
        None
    } else {
        Some((val_of(s.subrange(from, from + k)) as u32, from + k))
    }
}

/// Read the number standing at `from`.
pub fn read_u32(s: &str, from: usize) -> (r: Option<(u32, usize)>)
    requires
        from <= s@.len(),
    ensures
        match r {
            Some((v, j)) => parse_u32_at(s@, from as int) == Some((v, j as int)) && from < j
                <= s@.len(),
            None => parse_u32_at(s@, from as int) is None,
        },
{
    let n = s.unicode_len();
    let mut j = from;
    let mut v: u64 = 0;
    let mut overflowed = false;
    while j < n && digit_at(s, j)
        invariant
            from <= j <= n,
            n == s@.len(),
            forall|k: int| from <= k < j ==> is_digit_char(#[trigger] s@[k]),
            !overflowed ==> v == val_of(s@.subrange(from as int, j as int)) && v <= u32::MAX,
            overflowed ==> val_of(s@.subrange(from as int, j as int)) > u32::MAX,
        decreases n - j,
    {
        let c = s.get_char(j);
        let d = char_digit_val(c);
        proof {
            let pre = s@.subrange(from as int, j as int);
            let ext = s@.subrange(from as int, j + 1 as int);
            assert(ext.drop_last() =~= pre);
            assert(ext.last() == s@[j as int]);
            assert(val_of(ext) == val_of(pre) * 10 + digit_val(s@[j as int]));
            lemma_val_of_nonneg(pre);
            assert(digit_val(s@[j as int]) >= 0);
        }
        if !overflowed {
            let w = v * 10 + (d as u64);
            if w > (u32::MAX as u64) {
                overflowed = true;
            } else {
                v = w;
            }
        }
        j += 1;
    }
    proof {
        lemma_digit_run(s@, from as int, j as int);
    }
    if j == from {
        return None;
    }
    proof {
        assert(from as int + digit_run_len(s@, from as int) == j as int);
    }
    if j > from + 1 && s.get_char(from) == '0' {
        return None;
    }
    if overflowed {
        return None;
    }
    Some((v as u32, j))
}

/// How one character stands inside a quoted string: the quote and the
/// backslash behind a backslash, every other character as itself.
pub open spec fn esc_char(c: char) -> Seq<char> {
    if c == '"' || c == '\\' {
        seq!['\\', c]
    } else {
        seq![c]
    }
}

/// The characters of a string as they stand inside its quotes.
pub open spec fn esc(s: Seq<char>) -> Seq<char>
    decreases s.len(),
{
    if s.len() == 0 {
        Seq::empty()
    } else {
        esc(s.drop_last()) + esc_char(s.last())
    }
}

/// A quoted string: the escaped characters between two quotes.
pub open spec fn jstring(s: Seq<char>) -> Seq<char> {
    seq!['"'] + esc(s) + seq!['"']
}

/// Escaping distributes over concatenation.
pub proof fn lemma_esc_concat(a: Seq<char>, b: Seq<char>)
    ensures
        esc(a + b) == esc(a) + esc(b),
    decreases b.len(),
{
    if b.len() == 0 {
        assert(a + b =~= a);
        assert(esc(a) + esc(b) =~= esc(a));
    } else {
        lemma_esc_concat(a, b.drop_last());
        assert((a + b).drop_last() =~= a + b.drop_last());
        assert((a + b).last() == b.last());
        assert(esc(a) + esc(b.drop_last()) + esc_char(b.last()) =~= esc(a) + (esc(b.drop_last())
            + esc_char(b.last())));
    }
}

/// Append `s` as a quoted string.
pub fn append_jstring(out: &mut String, s: &str)
    ensures
        final(out)@ == old(out)@ + jstring(s@),
{
    proof {
        reveal_strlit("\"");
        reveal_strlit("\\");
        assert("\""@ =~= seq!['"']);
        assert("\\"@ =~= seq!['\\']);
    }
    out.append("\"");
    let n = s.unicode_len();
    let mut i: usize = 0;
    proof {
        assert(s@.take(0 as int) =~= Seq::<char>::empty());
        assert(out@ =~= old(out)@ + seq!['"'] + esc(s@.take(0 as int)));
    }
    while i < n
        invariant
            i <= n,
            n == s@.len(),
            out@ == old(out)@ + seq!['"'] + esc(s@.take(i as int)),
        decreases n - i,
    {
        let c = s.get_char(i);
        proof {
            assert(s@.take(i + 1 as int).drop_last() =~= s@.take(i as int));
            assert(s@.take(i + 1 as int).last() == s@[i as int]);
            assert(s@.subrange(i as int, i + 1 as int) =~= seq![s@[i as int]]);
        }
        if c == '"' || c == '\\' {
            out.append("\\");
        }
        out.append(s.substring_char(i, i + 1));
        proof {
            reveal_strlit("\\");
            assert(out@ =~= old(out)@ + seq!['"'] + esc(s@.take(i + 1 as int)));
        }
        i += 1;
    }
    proof {
        assert(s@.take(n as int) =~= s@);
    }
    out.append("\"");
    proof {
        assert(out@ =~= old(out)@ + jstring(s@));
    }
}

/// The quoted string standing at `from`: an opening quote, characters
/// with only the two escapes `\"` and `\\` recognised, a closing
/// quote.  On success, the unescaped content and the position after
/// the closing quote.
pub open spec fn parse_jstring_at(s: Seq<char>, from: int) -> Option<(Seq<char>, int)> {
    if 0 <= from < s.len() && s[from] == '"' {
        parse_jstring_body(s, from + 1)
    } else {
        None
    }
}

/// The rest of a quoted string, read from inside the quotes.
pub open spec fn parse_jstring_body(s: Seq<char>, from: int) -> Option<(Seq<char>, int)>
    decreases s.len() - from,
{
    if from < 0 || from >= s.len() {
        None
    } else if s[from] == '"' {
        Some((Seq::empty(), from + 1))
    } else if s[from] == '\\' {
        if from + 1 < s.len() && (s[from + 1] == '"' || s[from + 1] == '\\') {
            match parse_jstring_body(s, from + 2) {
                Some(p) => Some((seq![s[from + 1]] + p.0, p.1)),
                None => None,
            }
        } else {
            None
        }
    } else {
        match parse_jstring_body(s, from + 1) {
            Some(p) => Some((seq![s[from]] + p.0, p.1)),
            None => None,
        }
    }
}

/// Read the quoted string standing at `from`.
pub fn read_jstring(s: &str, from: usize) -> (r: Option<(String, usize)>)
    requires
        from <= s@.len(),
    ensures
        match r {
            Some((k, j)) => parse_jstring_at(s@, from as int) == Some((k@, j as int)) && from < j
                <= s@.len(),
            None => parse_jstring_at(s@, from as int) is None,
        },
{
    let n = s.unicode_len();
    if from >= n {
        return None;
    }
    if s.get_char(from) != '"' {
        return None;
    }
    let mut acc = String::new();
    let mut j = from + 1;
    loop
        invariant
            from + 1 <= j <= n,
            n == s@.len(),
            from < n,
            s@[from as int] == '"',
            parse_jstring_body(s@, from + 1 as int) == (match parse_jstring_body(s@, j as int) {
                Some(p) => Some((acc@ + p.0, p.1)),
                None => None::<(Seq<char>, int)>,
            }),
        decreases n - j,
    {
        if j >= n {
            return None;
        }
        let c = s.get_char(j);
        if c == '"' {
            proof {
                assert(parse_jstring_body(s@, j as int) == Some((Seq::<char>::empty(), j + 1)));
                assert(acc@ + Seq::<char>::empty() =~= acc@);
            }
            return Some((acc, j + 1));
        }
        if c == '\\' {
            if j + 1 >= n {
                return None;
            }
            let c2 = s.get_char(j + 1);
            if c2 == '"' || c2 == '\\' {
                let ghost acc0 = acc@;
                proof {
                    assert(s@.subrange(j + 1 as int, j + 2 as int) =~= seq![s@[j + 1 as int]]);
                }
                acc.append(s.substring_char(j + 1, j + 2));
                proof {
                    assert(acc@ == acc0 + seq![s@[j + 1 as int]]);
                    match parse_jstring_body(s@, j + 2 as int) {
                        Some(p) => {
                            assert(parse_jstring_body(s@, j as int) == Some(
                                (seq![s@[j + 1 as int]] + p.0, p.1),
                            ));
                            assert(acc@ + p.0 =~= acc0 + (seq![s@[j + 1 as int]] + p.0));
                        },
                        None => {
                            assert(parse_jstring_body(s@, j as int) is None);
                        },
                    }
                }
                j += 2;
            } else {
                return None;
            }
        } else {
            let ghost acc0 = acc@;
            proof {
                assert(s@.subrange(j as int, j + 1 as int) =~= seq![s@[j as int]]);
            }
            acc.append(s.substring_char(j, j + 1));
            proof {
                assert(acc@ == acc0 + seq![s@[j as int]]);
                match parse_jstring_body(s@, j + 1 as int) {
                    Some(p) => {
                        assert(parse_jstring_body(s@, j as int) == Some(
                            (seq![s@[j as int]] + p.0, p.1),
                        ));
                        assert(acc@ + p.0 =~= acc0 + (seq![s@[j as int]] + p.0));
                    },
                    None => {
                        assert(parse_jstring_body(s@, j as int) is None);
                    },
                }
            }
            j += 1;
        }
    }
}

/// Reading back a written string: wherever the escaped text of `key`
/// stands, followed by a closing quote, the reader returns exactly
/// `key` and stops after that quote.
pub proof fn lemma_parse_esc(s: Seq<char>, from: int, key: Seq<char>)
    requires
        0 <= from,
        from + esc(key).len() + 1 <= s.len(),
        s.subrange(from, from + esc(key).len()) == esc(key),
        s[from + esc(key).len()] == '"',
    ensures
        parse_jstring_body(s, from) == Some((key, from + esc(key).len() + 1)),
    decreases key.len(),
{
    if key.len() == 0 {
        assert(esc(key).len() == 0);
    } else {
        let k0 = key[0];
        let rest = key.skip(1);
        assert(key =~= seq![k0] + rest);
        lemma_esc_concat(seq![k0], rest);
        let one = seq![k0];
        assert(one.drop_last() =~= Seq::<char>::empty());
        assert(esc(Seq::<char>::empty()) =~= Seq::<char>::empty());
        assert(esc(one) == esc(one.drop_last()) + esc_char(one.last()));
        assert(esc(one) =~= esc_char(k0));
        assert(esc(key) == esc_char(k0) + esc(rest));
        let ec = esc_char(k0);
        let full = esc(key);
        assert(forall|i: int| 0 <= i < full.len() ==> s[from + i] == #[trigger] full[i]) by {
            assert(forall|i: int|
                0 <= i < full.len() ==> s.subrange(from, from + full.len() as int)[i]
                    == #[trigger] full[i]);
        }
        if k0 == '"' || k0 == '\\' {
            assert(full[0] == '\\');
            assert(full[1] == k0);
            assert(s[from] == '\\');
            assert(s[from + 1] == k0);
            assert forall|i: int| 0 <= i < esc(rest).len() implies s[from + 2 + i] == #[trigger] esc(
                rest,
            )[i] by {
                assert(full[2 + i] == esc(rest)[i]);
            }
            assert(s.subrange(from + 2, from + 2 + esc(rest).len()) =~= esc(rest));
            lemma_parse_esc(s, from + 2, rest);
            assert(seq![s[from + 1]] + rest =~= key);
        } else {
            assert(full[0] == k0);
            assert(s[from] == k0);
            assert forall|i: int| 0 <= i < esc(rest).len() implies s[from + 1 + i] == #[trigger] esc(
                rest,
            )[i] by {
                assert(full[1 + i] == esc(rest)[i]);
            }
            assert(s.subrange(from + 1, from + 1 + esc(rest).len()) =~= esc(rest));
            lemma_parse_esc(s, from + 1, rest);
            assert(seq![s[from]] + rest =~= key);
        }
    }
}

/// Reading back a whole quoted string returns its content.
pub proof fn lemma_jstring_round_trip(s: Seq<char>, from: int, key: Seq<char>)
    requires
        0 <= from,
        from + jstring(key).len() <= s.len(),
        s.subrange(from, from + jstring(key).len()) == jstring(key),
    ensures
        parse_jstring_at(s, from) == Some((key, from + jstring(key).len())),
{
    let full = jstring(key);
    assert(full.len() == esc(key).len() + 2);
    assert(forall|i: int| 0 <= i < full.len() ==> s[from + i] == #[trigger] full[i]) by {
        assert(forall|i: int|
            0 <= i < full.len() ==> s.subrange(from, from + full.len() as int)[i]
                == #[trigger] full[i]);
    }
    assert(full[0] == '"');
    assert(s[from] == '"');
    assert forall|i: int| 0 <= i < esc(key).len() implies s[from + 1 + i] == #[trigger] esc(
        key,
    )[i] by {
        assert(full[1 + i] == esc(key)[i]);
    }
    assert(s.subrange(from + 1, from + 1 + esc(key).len()) =~= esc(key));
    assert(full[esc(key).len() as int + 1] == '"');
    assert(s[from + 1 + esc(key).len()] == '"');
    lemma_parse_esc(s, from + 1, key);
}

/// A date as text: four year digits, two month digits, two day digits,
/// zero-padded, separated by dashes.
pub open spec fn date_chars(d: Date) -> Seq<char> {
    seq![
        digit_char(d.year as int / 1000),
        digit_char((d.year as int / 100) % 10),
        digit_char((d.year as int / 10) % 10),
        digit_char(d.year as int % 10),
        '-',
        digit_char(d.month as int / 10),
        digit_char(d.month as int % 10),
        '-',
        digit_char(d.day as int / 10),
        digit_char(d.day as int % 10),
    ]
}

/// Append one digit character.
fn append_digit(out: &mut String, v: u32)
    requires
        v < 10,
    ensures
        final(out)@ == old(out)@ + seq![digit_char(v as int)],
{
    let digits = "0123456789";
    proof {
        reveal_strlit("0123456789");
        assert(digits@.subrange(v as int, v as int + 1) =~= seq![digits@[v as int]]);
        assert(digits@[v as int] == digit_char(v as int));
    }
    out.append(digits.substring_char(v as usize, v as usize + 1));
}

/// Append a date as `YYYY-MM-DD`.
pub fn append_date(out: &mut String, d: &Date)
    requires
        d.well_formed(),
    ensures
        final(out)@ == old(out)@ + date_chars(*d),
{
    proof {
        reveal_strlit("-");
        assert("-"@ =~= seq!['-']);
    }
    append_digit(out, d.year / 1000);
    append_digit(out, (d.year / 100) % 10);
    append_digit(out, (d.year / 10) % 10);
    append_digit(out, d.year % 10);
    out.append("-");
    append_digit(out, d.month / 10);
    append_digit(out, d.month % 10);
    out.append("-");
    append_digit(out, d.day / 10);
    append_digit(out, d.day % 10);
    proof {
        assert(out@ =~= old(out)@ + date_chars(*d));
    }
}

/// The date standing at `from`: exactly ten characters in the
/// `YYYY-MM-DD` shape, with a month between 1 and 12 and a day between
/// 1 and 31.  On success, the date and the position after it.
pub open spec fn parse_date_at(s: Seq<char>, from: int) -> Option<(Date, int)> {
    if from >= 0 && from + 10 <= s.len() && is_digit_char(s[from]) && is_digit_char(s[from + 1])
        && is_digit_char(s[from + 2]) && is_digit_char(s[from + 3]) && s[from + 4] == '-'
        && is_digit_char(s[from + 5]) && is_digit_char(s[from + 6]) && s[from + 7] == '-'
        && is_digit_char(s[from + 8]) && is_digit_char(s[from + 9]) {
        let y = digit_val(s[from]) * 1000 + digit_val(s[from + 1]) * 100 + digit_val(s[from + 2])
            * 10 + digit_val(s[from + 3]);
        let m = digit_val(s[from + 5]) * 10 + digit_val(s[from + 6]);
        let dd = digit_val(s[from + 8]) * 10 + digit_val(s[from + 9]);
        if 1 <= m <= 12 && 1 <= dd <= 31 {
            Some((Date { year: y as u32, month: m as u32, day: dd as u32 }, from + 10))
        } else {
            None
        }
    } else {
        None
    }
}

/// Read the date standing at `from`.
pub fn read_date(s: &str, from: usize) -> (r: Option<(Date, usize)>)
    requires
        from <= s@.len(),
    ensures
        match r {
            Some((d, j)) => parse_date_at(s@, from as int) == Some((d, j as int)) && from < j
                <= s@.len() && d.well_formed(),
            None => parse_date_at(s@, from as int) is None,
        },
{
    let n = s.unicode_len();
    if n - from < 10 {
        return None;
    }
    if !(digit_at(s, from) && digit_at(s, from + 1) && digit_at(s, from + 2) && digit_at(
        s,
        from + 3,
    ) && digit_at(s, from + 5) && digit_at(s, from + 6) && digit_at(s, from + 8) && digit_at(
        s,
        from + 9,
    )) {
        return None;
    }
    if s.get_char(from + 4) != '-' || s.get_char(from + 7) != '-' {
        return None;
    }
    let y = char_digit_val(s.get_char(from)) * 1000 + char_digit_val(s.get_char(from + 1)) * 100
        + char_digit_val(s.get_char(from + 2)) * 10 + char_digit_val(s.get_char(from + 3));
    let m = char_digit_val(s.get_char(from + 5)) * 10 + char_digit_val(s.get_char(from + 6));
    let dd = char_digit_val(s.get_char(from + 8)) * 10 + char_digit_val(s.get_char(from + 9));
    if 1 <= m && m <= 12 && 1 <= dd && dd <= 31 {
        Some((Date { year: y, month: m, day: dd }, from + 10))
    } else {
        None
    }
}

/// Reading back a written date returns the date.
pub proof fn lemma_date_round_trip(s: Seq<char>, from: int, d: Date)
    requires
        0 <= from,
        from + 10 <= s.len(),
        d.well_formed(),
        s.subrange(from, from + 10) == date_chars(d),
    ensures
        parse_date_at(s, from) == Some((d, from + 10)),
{
    let t = date_chars(d);
    assert(forall|i: int| 0 <= i < 10 ==> s[from + i] == #[trigger] t[i]) by {
        assert(forall|i: int| 0 <= i < 10 ==> s.subrange(from, from + 10)[i] == #[trigger] t[i]);
    }
    let y = d.year as int;
    let mo = d.month as int;
    let dy = d.day as int;
    lemma_digit_inverse(y / 1000);
    lemma_digit_inverse((y / 100) % 10);
    lemma_digit_inverse((y / 10) % 10);
    lemma_digit_inverse(y % 10);
    lemma_digit_inverse(mo / 10);
    lemma_digit_inverse(mo % 10);
    lemma_digit_inverse(dy / 10);
    lemma_digit_inverse(dy % 10);
    assert((y / 1000) * 1000 + ((y / 100) % 10) * 100 + ((y / 10) % 10) * 10 + y % 10 == y) by {
        assert(y == (y / 10) * 10 + y % 10);
        assert(y / 10 == ((y / 10) / 10) * 10 + (y / 10) % 10);
        assert((y / 10) / 10 == y / 100);
        assert(y / 100 == ((y / 100) / 10) * 10 + (y / 100) % 10);
        assert((y / 100) / 10 == y / 1000);
    }
    assert((mo / 10) * 10 + mo % 10 == mo);
    assert((dy / 10) * 10 + dy % 10 == dy);
}

/// Reading back a written number returns the number: wherever the
/// decimal text of `n` stands, with no digit following it, the reader
/// returns exactly `n` and stops after the text.
pub proof fn lemma_u32_round_trip(s: Seq<char>, from: int, n: u32)
    requires
        0 <= from,
        from + dec_of(n as nat).len() <= s.len(),
        s.subrange(from, from + dec_of(n as nat).len()) == dec_of(n as nat),
        from + dec_of(n as nat).len() == s.len() || !is_digit_char(s[from + dec_of(n as nat).len()]),
    ensures
        parse_u32_at(s, from) == Some((n, from + dec_of(n as nat).len())),
{
    let d = dec_of(n as nat);
    lemma_dec_of(n as nat);
    assert(forall|i: int| 0 <= i < d.len() ==> s[from + i] == #[trigger] d[i]) by {
        assert(forall|i: int|
            0 <= i < d.len() ==> s.subrange(from, from + d.len() as int)[i] == #[trigger] d[i]);
    }
    assert(forall|k: int| from <= k < from + d.len() ==> is_digit_char(#[trigger] s[k])) by {
        assert(forall|k: int|
            from <= k < from + d.len() ==> #[trigger] s[k] == d[k - from]);
    }
    lemma_digit_run(s, from, from + d.len() as int);
    assert(s.subrange(from, from + digit_run_len(s, from)) == d);
    assert(val_of(s.subrange(from, from + digit_run_len(s, from))) == n);
    if d.len() > 1 {
        assert(s[from] == d[0]);
        assert(d[0] != '0');
    }
}

/// The exact text `lit` stands at `from`.
pub open spec fn matches_at(s: Seq<char>, from: int, lit: Seq<char>) -> bool {
    0 <= from && from + lit.len() <= s.len() && s.subrange(from, from + lit.len()) == lit
}

/// Text that stands somewhere, position by position, stands there as a
/// subrange.
pub proof fn lemma_matches_at(s: Seq<char>, from: int, lit: Seq<char>)
    requires
        0 <= from,
        from + lit.len() <= s.len(),
        forall|i: int| 0 <= i < lit.len() ==> s[from + i] == #[trigger] lit[i],
    ensures
        matches_at(s, from, lit),
{
    assert(s.subrange(from, from + lit.len() as int) =~= lit);
}

/// Check whether the exact text `lit` stands at `from`; on success,
/// the position after it.
pub fn expect_lit(s: &str, from: usize, lit: &str) -> (r: Option<usize>)
    requires
        from <= s@.len(),
    ensures
        match r {
            Some(j) => matches_at(s@, from as int, lit@) && j == from + lit@.len() && j <= s@.len(),
            None => !matches_at(s@, from as int, lit@),
        },
{
    let ln = lit.unicode_len();
    let n = s.unicode_len();
    if n - from < ln {
        return None;
    }
    let mut k: usize = 0;
    while k < ln
        invariant
            k <= ln,
            ln == lit@.len(),
            n == s@.len(),
            from + ln <= n,
            forall|t: int| 0 <= t < k ==> s@[from + t] == #[trigger] lit@[t],
        decreases ln - k,
    {
        if s.get_char(from + k) != lit.get_char(k) {
            proof {
                if matches_at(s@, from as int, lit@) {
                    assert(s@.subrange(from as int, from as int + lit@.len() as int)[k as int]
                        == lit@[k as int]);
                }
            }
            return None;
        }
        k += 1;
    }
    proof {
        lemma_matches_at(s@, from as int, lit@);
    }
    Some(from + ln)
}

/// Does a digit character stand at position `j`?
fn digit_at(s: &str, j: usize) -> (r: bool)
    requires
        j < s@.len(),
    ensures
        r == is_digit_char(s@[j as int]),
{
    let c = s.get_char(j);
    '0' <= c && c <= '9'
}

/// The value of a digit character, executable.
fn char_digit_val(c: char) -> (d: u32)
    requires
        is_digit_char(c),
    ensures
        d == digit_val(c),
        d < 10,
{
    (c as u32) - ('0' as u32)
}

} // verus!
