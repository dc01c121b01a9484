//! The persisted records and their file texts.
//!
//! Two small records live as JSON files under the tool's per-user
//! directory: the user configuration (the API key) and the usage
//! counters.  The library produces and consumes the exact file text;
//! the surrounding binary only moves that text to and from disk.  A
//! missing file is not an error: the record starts from its default,
//! and the text to write back is handed out with it.  Any other read
//! failure, and any text that does not parse, is fatal.

use vstd::prelude::*;
use crate::counter::UsageData;
use crate::date::Date;
use crate::jsontext::{
    append_date, append_jstring, append_u32, date_chars, dec_of, expect_lit, is_digit_char,
    jstring, lemma_date_round_trip, lemma_dec_of, lemma_jstring_round_trip, lemma_u32_round_trip,
    matches_at, parse_date_at, parse_jstring_at, parse_u32_at, read_date, read_jstring, read_u32,
};

verus! {

/// The user configuration record: the API key, absent until set.
#[derive(Debug, PartialEq)]
pub struct UserConfig {
    pub api_key: Option<String>,
}

impl UserConfig {
    /// The record a fresh installation starts from: no key.
    pub fn initial() -> (r: UserConfig)
        ensures
            r.api_key.deep_view() == None::<Seq<char>>,
    {
        UserConfig { api_key: None }
    }

    /// The record after the key is set: the whole record is replaced,
    /// never merged.
    pub fn with_api_key(key: String) -> (r: UserConfig)
        ensures
            r.api_key.deep_view() == Some(key@),
    {
        UserConfig { api_key: Some(key) }
    }

    /// The stored key, if any; without one the caller cannot
    /// authenticate and must not attempt the remote call.
    pub fn get_api_key(&self) -> (r: Option<String>)
        ensures
            r.deep_view() == self.api_key.deep_view(),
    {
        match &self.api_key {
            Some(k) => Some(k.clone()),
            None => None,
        }
    }
}

/// Why a record could not be loaded or saved.  All are fatal: the
/// invocation stops with a message, nothing is retried or repaired.
#[derive(Clone, Copy, PartialEq, Eq, Structural, Debug)]
pub enum StoreError {
    /// No per-user base directory could be resolved.
    NoBaseDir,
    /// The file exists but could not be read.
    Unreadable,
    /// The file's text is not a record of the expected shape.
    Malformed,
    /// The record could not be written.
    WriteFailed,
}

impl StoreError {
    /// The message shown when the error stops the invocation.
    pub fn message(&self) -> (r: String)
        ensures
            *self == StoreError::NoBaseDir ==> r@ == "Fail to resolve user directory."@,
            *self == StoreError::Unreadable ==> r@ == "Fail to read data file."@,
            *self == StoreError::Malformed ==> r@ == "Fail to parse data file."@,
            *self == StoreError::WriteFailed ==> r@ == "Fail to write data file."@,
    {
        match self {
            StoreError::NoBaseDir => String::from_str("Fail to resolve user directory."),
            StoreError::Unreadable => String::from_str("Fail to read data file."),
            StoreError::Malformed => String::from_str("Fail to parse data file."),
            StoreError::WriteFailed => String::from_str("Fail to write data file."),
        }
    }
}

/// A usage record the files can hold: any date in it is well formed.
pub open spec fn data_valid(d: UsageData) -> bool {
    match d.last_date {
        Some(dt) => dt.well_formed(),
        None => true,
    }
}

/// The file text of the configuration record.
pub open spec fn config_text(k: Option<Seq<char>>) -> Seq<char> {
    "{\n  \"api_key\": "@ + (match k {
        Some(key) => jstring(key),
        None => "null"@,
    }) + "\n}"@
}

/// The configuration record a file text holds, if the text has exactly
/// the expected shape.
pub open spec fn parse_config_text(s: Seq<char>) -> Option<Option<Seq<char>>> {
    let pre = "{\n  \"api_key\": "@;
    let suf = "\n}"@;
    if !matches_at(s, 0, pre) {
        None
    } else if matches_at(s, pre.len() as int, "null"@) && matches_at(s, pre.len() as int + 4, suf)
        && s.len() == pre.len() + 4 + suf.len() {
        Some(None)
    } else {
        match parse_jstring_at(s, pre.len() as int) {
            Some((k, j)) => if matches_at(s, j, suf) && s.len() == j + suf.len() as int {
                Some(Some(k))
            } else {
                None
            },
            None => None,
        }
    }
}

/// Write the configuration record as file text.
pub fn encode_config(cfg: &UserConfig) -> (r: String)
    ensures
        r@ == config_text(cfg.api_key.deep_view()),
{
    let mut out = String::new();
    out.append("{\n  \"api_key\": ");
    match &cfg.api_key {
        Some(k) => append_jstring(&mut out, k.as_str()),
        None => out.append("null"),
    }
    out.append("\n}");
    proof {
        assert(out@ =~= config_text(cfg.api_key.deep_view()));
    }
    out
}

/// Read the configuration record from file text.
pub fn parse_config(s: &str) -> (r: Option<UserConfig>)
    ensures
        match (r, parse_config_text(s@)) {
            (Some(c), Some(k)) => c.api_key.deep_view() == k,
            (None, None) => true,
            _ => false,
        },
{
    let pre = "{\n  \"api_key\": ";
    let n = s.unicode_len();
    let i1 = match expect_lit(s, 0, pre) {
        Some(j) => j,
        None => {
            return None;
        },
    };
    if let Some(j2) = expect_lit(s, i1, "null") {
        proof {
            reveal_strlit("null");
            assert(s@.subrange(i1 as int, i1 + 4 as int)[0] == s@[i1 as int]);
            assert(s@[i1 as int] == 'n');
            assert(parse_jstring_at(s@, i1 as int) is None);
        }
        if let Some(j3) = expect_lit(s, j2, "\n}") {
            if j3 == n {
                return Some(UserConfig { api_key: None });
            }
        }
        return None;
    }
    match read_jstring(s, i1) {
        Some((k, j)) => {
            if let Some(j3) = expect_lit(s, j, "\n}") {
                if j3 == n {
                    return Some(UserConfig { api_key: Some(k) });
                }
            }
            None
        },
        None => None,
    }
}

/// The file text of the usage record.
pub open spec fn data_text(d: UsageData) -> Seq<char> {
    "{\n  \"last_date\": "@ + (match d.last_date {
        Some(dt) => seq!['"'] + date_chars(dt) + seq!['"'],
        None => "null"@,
    }) + ",\n  \"count_today\": "@ + dec_of(d.count_today as nat) + ",\n  \"count_total\": "@
        + dec_of(d.count_total as nat) + "\n}"@
}

/// The optional date standing at `from`: the word `null`, or a date in
/// quotes.
pub open spec fn parse_opt_date_at(s: Seq<char>, from: int) -> Option<(Option<Date>, int)> {
    if matches_at(s, from, "null"@) {
        Some((None, from + 4))
    } else if 0 <= from < s.len() && s[from] == '"' {
        match parse_date_at(s, from + 1) {
            Some((dt, j)) => if j < s.len() && s[j] == '"' {
                Some((Some(dt), j + 1))
            } else {
                None
            },
            None => None,
        }
    } else {
        None
    }
}

/// The usage record a file text holds, if the text has exactly the
/// expected shape.
pub open spec fn parse_data_text(s: Seq<char>) -> Option<UsageData> {
    let pre = "{\n  \"last_date\": "@;
    let mid2 = ",\n  \"count_today\": "@;
    let mid3 = ",\n  \"count_total\": "@;
    let suf = "\n}"@;
    if !matches_at(s, 0, pre) {
        None
    } else {
        match parse_opt_date_at(s, pre.len() as int) {
            Some((ld, i2)) => if !matches_at(s, i2, mid2) {
                None
            } else {
                match parse_u32_at(s, i2 + mid2.len() as int) {
                    Some((ct, i3)) => if !matches_at(s, i3, mid3) {
                        None
                    } else {
                        match parse_u32_at(s, i3 + mid3.len() as int) {
                            Some((tot, i4)) => if matches_at(s, i4, suf) && s.len() == i4
                                + suf.len() as int {
                                Some(UsageData { last_date: ld, count_today: ct, count_total: tot })
                            } else {
                                None
                            },
                            None => None,
                        }
                    },
                    None => None,
                }
            },
            None => None,
        }
    }
}

/// Write the usage record as file text.
pub fn encode_data(d: &UsageData) -> (r: String)
    requires
        data_valid(*d),
    ensures
        r@ == data_text(*d),
{
    let mut out = String::new();
    out.append("{\n  \"last_date\": ");
    match &d.last_date {
        Some(dt) => {
            proof {
                reveal_strlit("\"");
                assert("\""@ =~= seq!['"']);
            }
            out.append("\"");
            append_date(&mut out, dt);
            out.append("\"");
        },
        None => out.append("null"),
    }
    out.append(",\n  \"count_today\": ");
    append_u32(&mut out, d.count_today);
    out.append(",\n  \"count_total\": ");
    append_u32(&mut out, d.count_total);
    out.append("\n}");
    proof {
        assert(out@ =~= data_text(*d));
    }
    out
}

/// Read the optional date standing at `from`.
fn read_opt_date(s: &str, from: usize) -> (r: Option<(Option<Date>, usize)>)
    requires
        from <= s@.len(),
    ensures
        match r {
            Some((ld, j)) => parse_opt_date_at(s@, from as int) == Some((ld, j as int)) && from < j
                <= s@.len() && (match ld {
                Some(dt) => dt.well_formed(),
                None => true,
            }),
            None => parse_opt_date_at(s@, from as int) is None,
        },
{
    let n = s.unicode_len();
    if let Some(j) = expect_lit(s, from, "null") {
        proof {
            reveal_strlit("null");
        }
        return Some((None, j));
    }
    if from >= n {
        return None;
    }
    if s.get_char(from) != '"' {
        return None;
    }
    match read_date(s, from + 1) {
        Some((dt, j)) => {
            if j < n && s.get_char(j) == '"' {
                Some((Some(dt), j + 1))
            } else {
                None
            }
        },
        None => None,
    }
}

/// Read the usage record from file text.
pub fn parse_data(s: &str) -> (r: Option<UsageData>)
    ensures
        match (r, parse_data_text(s@)) {
            (Some(d), Some(dm)) => d == dm && data_valid(d),
            (None, None) => true,
            _ => false,
        },
{
    let n = s.unicode_len();
    let i1 = match expect_lit(s, 0, "{\n  \"last_date\": ") {
        Some(j) => j,
        None => {
            return None;
        },
    };
    let (ld, i2) = match read_opt_date(s, i1) {
        Some(p) => p,
        None => {
            return None;
        },
    };
    let i2b = match expect_lit(s, i2, ",\n  \"count_today\": ") {
        Some(j) => j,
        None => {
            return None;
        },
    };
    let (ct, i3) = match read_u32(s, i2b) {
        Some(p) => p,
        None => {
            return None;
        },
    };
    let i3b = match expect_lit(s, i3, ",\n  \"count_total\": ") {
        Some(j) => j,
        None => {
            return None;
        },
    };
    let (tot, i4) = match read_u32(s, i3b) {
        Some(p) => p,
        None => {
            return None;
        },
    };
    if let Some(i5) = expect_lit(s, i4, "\n}") {
        if i5 == n {
            return Some(UsageData { last_date: ld, count_today: ct, count_total: tot });
        }
    }
    None
}

/// Load the configuration record from a file's text, or start it from
/// its default when no file exists.  `file` is the file's text, `None`
/// when the file is absent.  On a bootstrap the default record comes
/// back together with the text to write, so that first use silently
/// creates the file; text that does not parse is fatal.
pub fn load_or_init_config(file: Option<&str>) -> (r: Result<(UserConfig, Option<String>), StoreError>)
    ensures
        match file {
            None => match r {
                Ok((c, w)) => c.api_key.deep_view() == None::<Seq<char>> && (match w {
                    Some(t) => t@ == config_text(None::<Seq<char>>),
                    None => false,
                }),
                Err(_) => false,
            },
            Some(s) => match (r, parse_config_text(s@)) {
                (Ok((c, w)), Some(k)) => c.api_key.deep_view() == k && w is None,
                (Err(e), None) => e == StoreError::Malformed,
                _ => false,
            },
        },
{
    match file {
        None => {
            let c = UserConfig::initial();
            let text = encode_config(&c);
            Ok((c, Some(text)))
        },
        Some(s) => match parse_config(s) {
            Some(c) => Ok((c, None)),
            None => Err(StoreError::Malformed),
        },
    }
}

/// Load the usage record from a file's text, or start it from its
/// default when no file exists; the same bootstrap rule as for the
/// configuration.
pub fn load_or_init_data(file: Option<&str>) -> (r: Result<(UsageData, Option<String>), StoreError>)
    ensures
        match file {
            None => match r {
                Ok((d, w)) => d == (UsageData {
                    last_date: None::<Date>,
                    count_today: 0u32,
                    count_total: 0u32,
                }) && (match w {
                    Some(t) => t@ == data_text(d),
                    None => false,
                }),
                Err(_) => false,
            },
            Some(s) => match (r, parse_data_text(s@)) {
                (Ok((d, w)), Some(dm)) => d == dm && data_valid(d) && w is None,
                (Err(e), None) => e == StoreError::Malformed,
                _ => false,
            },
        },
{
    match file {
        None => {
            let d = UsageData::initial();
            let text = encode_data(&d);
            Ok((d, Some(text)))
        },
        Some(s) => match parse_data(s) {
            Some(d) => Ok((d, None)),
            None => Err(StoreError::Malformed),
        },
    }
}

/// Round trip for the configuration record: the text that `save`
/// writes parses back to exactly the record that was saved, for every
/// key value.
pub proof fn lemma_config_round_trip(k: Option<Seq<char>>)
    ensures
        parse_config_text(config_text(k)) == Some(k),
{
    let pre = "{\n  \"api_key\": "@;
    let suf = "\n}"@;
    reveal_strlit("{\n  \"api_key\": ");
    reveal_strlit("\n}");
    reveal_strlit("null");
    let s = config_text(k);
    match k {
        None => {
            assert(s =~= pre + "null"@ + suf);
            assert(s.subrange(0, pre.len() as int) =~= pre);
            assert(s.subrange(pre.len() as int, pre.len() as int + 4) =~= "null"@);
            assert(s.subrange(pre.len() as int + 4, pre.len() as int + 6) =~= suf);
            assert(matches_at(s, 0, pre));
            assert(matches_at(s, pre.len() as int, "null"@));
            assert(matches_at(s, pre.len() as int + 4, suf));
            assert(s.len() == pre.len() + 4 + suf.len());
        },
        Some(key) => {
            let js = jstring(key);
            assert(s =~= pre + js + suf);
            assert(s.subrange(0, pre.len() as int) =~= pre);
            assert(matches_at(s, 0, pre));
            assert(js[0] == '"');
            assert(s[pre.len() as int] == '"');
            if matches_at(s, pre.len() as int, "null"@) {
                assert(s.subrange(pre.len() as int, pre.len() as int + 4)[0] == s[pre.len() as int]);
                assert(s[pre.len() as int] == 'n');
            }
            assert(s.subrange(pre.len() as int, pre.len() as int + js.len() as int) =~= js);
            lemma_jstring_round_trip(s, pre.len() as int, key);
            let j = pre.len() as int + js.len() as int;
            assert(s.subrange(j, j + 2) =~= suf);
            assert(matches_at(s, j, suf));
            assert(s.len() == j + suf.len());
        },
    }
}

/// Round trip for the usage record: the text that `save` writes parses
/// back to exactly the record that was saved, for every valid record.
pub proof fn lemma_data_round_trip(d: UsageData)
    requires
        data_valid(d),
    ensures
        parse_data_text(data_text(d)) == Some(d),
{
    let pre = "{\n  \"last_date\": "@;
    let mid2 = ",\n  \"count_today\": "@;
    let mid3 = ",\n  \"count_total\": "@;
    let suf = "\n}"@;
    reveal_strlit("{\n  \"last_date\": ");
    reveal_strlit(",\n  \"count_today\": ");
    reveal_strlit(",\n  \"count_total\": ");
    reveal_strlit("\n}");
    reveal_strlit("null");
    let s = data_text(d);
    let dpart = match d.last_date {
        Some(dt) => seq!['"'] + date_chars(dt) + seq!['"'],
        None => "null"@,
    };
    let d1 = dec_of(d.count_today as nat);
    let d2 = dec_of(d.count_total as nat);
    lemma_dec_of(d.count_today as nat);
    lemma_dec_of(d.count_total as nat);
    assert(s =~= pre + dpart + mid2 + d1 + mid3 + d2 + suf);
    let i1 = pre.len() as int;
    let i2 = i1 + dpart.len() as int;
    let i2b = i2 + mid2.len() as int;
    let i3 = i2b + d1.len() as int;
    let i3b = i3 + mid3.len() as int;
    let i4 = i3b + d2.len() as int;
    assert(s.subrange(0, i1) =~= pre);
    assert(matches_at(s, 0, pre));
    match d.last_date {
        None => {
            assert(s.subrange(i1, i1 + 4) =~= "null"@);
            assert(matches_at(s, i1, "null"@));
            assert(parse_opt_date_at(s, i1) == Some((None::<Date>, i2)));
        },
        Some(dt) => {
            assert(s[i1] == '"');
            if matches_at(s, i1, "null"@) {
                assert(s.subrange(i1, i1 + 4)[0] == s[i1]);
                assert(s[i1] == 'n');
            }
            assert(s.subrange(i1 + 1, i1 + 11) =~= date_chars(dt));
            lemma_date_round_trip(s, i1 + 1, dt);
            assert(s[i1 + 11] == '"');
            assert(i1 + 11 < s.len());
            assert(parse_opt_date_at(s, i1) == Some((Some(dt), i2)));
        },
    }
    assert(s.subrange(i2, i2b) =~= mid2);
    assert(matches_at(s, i2, mid2));
    assert(s.subrange(i2b, i3) =~= d1);
    assert(s[i3] == mid3[0]);
    assert(!is_digit_char(s[i3]));
    lemma_u32_round_trip(s, i2b, d.count_today);
    assert(s.subrange(i3, i3b) =~= mid3);
    assert(matches_at(s, i3, mid3));
    assert(s.subrange(i3b, i4) =~= d2);
    assert(s[i4] == suf[0]);
    assert(!is_digit_char(s[i4]));
    lemma_u32_round_trip(s, i3b, d.count_total);
    assert(s.subrange(i4, i4 + 2) =~= suf);
    assert(matches_at(s, i4, suf));
    assert(s.len() == i4 + suf.len());
}

} // verus!
