use vstd::prelude::*;
use vstd::string::StrSliceExecFns;
use crate::account::string_views;
use crate::error::Error;
use crate::hibp::SUFFIX_CHARS;

verus! {

/// A line with its trailing carriage return removed, if it has one.
pub open spec fn strip_cr(l: Seq<char>) -> Seq<char> {
    if l.len() > 0 && l.last() == '\r' {
        l.drop_last()
    } else {
        l
    }
}

/// The lines of a response body: split on newlines, carriage returns
/// stripped, and no empty line after a trailing newline.
pub open spec fn split_lines(s: Seq<char>) -> Seq<Seq<char>>
    decreases s.len(),
{
    if s.len() == 0 {
        Seq::empty()
    } else {
        match s.index_of_first('\n') {
            None => seq![strip_cr(s)],
            Some(j) => if 0 <= j < s.len() {
                seq![strip_cr(s.take(j))] + split_lines(s.skip(j + 1))
            } else {
                seq![strip_cr(s)]
            },
        }
    }
}

/// Whether a character is a decimal digit.
pub open spec fn is_digit(c: char) -> bool {
    48 <= c as u32 <= 57
}

/// The value of one decimal digit character.
pub open spec fn digit_val(c: char) -> int {
    c as u32 - 48
}

/// Whether every character of `s` is a decimal digit.
pub open spec fn all_digits(s: Seq<char>) -> bool {
    forall|i: int| 0 <= i < s.len() ==> is_digit(#[trigger] s[i])
}

/// The numeric value of a digit string.
pub open spec fn digits_val(s: Seq<char>) -> int
    decreases s.len(),
{
    if s.len() == 0 {
        0
    } else {
        digits_val(s.drop_last()) * 10 + digit_val(s.last())
    }
}

/// The occurrence count a field parses to: a non-empty all-digit string
/// whose value fits in a `u64`; anything else is rejected.
pub open spec fn parse_count(s: Seq<char>) -> Option<u64> {
    if s.len() > 0 && all_digits(s) && digits_val(s) <= u64::MAX {
        Some(digits_val(s) as u64)
    } else {
        None
    }
}

proof fn lemma_digits_val_nonneg(s: Seq<char>)
    requires
        all_digits(s),
    ensures
        digits_val(s) >= 0,
    decreases s.len(),
{
    if s.len() > 0 {
        assert(is_digit(s[s.len() - 1]));
        assert(all_digits(s.drop_last()));
        lemma_digits_val_nonneg(s.drop_last());
    }
}

proof fn lemma_digits_val_mono(s: Seq<char>, k: int)
    requires
        all_digits(s),
        0 <= k <= s.len(),
    ensures
        digits_val(s.take(k)) <= digits_val(s),
    decreases s.len() - k,
{
    if k == s.len() {
        assert(s.take(k) =~= s);
    } else {
        assert(s.take(k + 1).drop_last() =~= s.take(k));
        assert(is_digit(s[k]));
        assert(all_digits(s.take(k))) by {
            assert(forall|i: int| 0 <= i < k ==> s.take(k)[i] == #[trigger] s[i]);
        }
        lemma_digits_val_nonneg(s.take(k));
        assert(digits_val(s.take(k + 1)) == digits_val(s.take(k)) * 10 + digit_val(s[k]));
        assert(digits_val(s.take(k)) <= digits_val(s.take(k + 1)));
        lemma_digits_val_mono(s, k + 1);
    }
}

/// Parses a decimal `u64`; rejects empty or non-digit input and values that
/// do not fit.
fn parse_u64(s: &str) -> (r: Option<u64>)
    ensures
        r == parse_count(s@),
{
    let len = s.unicode_len();
    if len == 0 {
        return None;
    }
    let mut acc: u64 = 0;
    let mut i: usize = 0;
    while i < len
        invariant
            0 < len == s@.len(),
            i <= len,
            all_digits(s@.take(i as int)),
            acc == digits_val(s@.take(i as int)),
        decreases len - i,
    {
        let c = s.get_char(i);
        let code = c as u32;
        if code < 48 || code > 57 {
            proof {
                assert(!is_digit(s@[i as int]));
            }
            return None;
        }
        let d: u64 = (code - 48) as u64;
        proof {
            assert(s@.take(i as int + 1).drop_last() =~= s@.take(i as int));
            assert(all_digits(s@.take(i as int + 1))) by {
                assert(forall|j: int|
                    0 <= j < i + 1 ==> s@.take(i as int + 1)[j] == #[trigger] s@[j]);
                assert(is_digit(s@[i as int]));
            }
        }
        if acc > (u64::MAX - d) / 10 {
            proof {
                assert(acc * 10 + d > u64::MAX) by (nonlinear_arith)
                    requires
                        acc > (u64::MAX - d) / 10,
                        d <= 9,
                ;
                assert(digits_val(s@.take(i as int + 1)) == acc * 10 + d);
                if all_digits(s@) {
                    lemma_digits_val_mono(s@, i as int + 1);
                    assert(digits_val(s@) > u64::MAX);
                }
            }
            return None;
        }
        proof {
            assert(acc * 10 + d <= u64::MAX) by (nonlinear_arith)
                requires
                    acc <= (u64::MAX - d) / 10,
                    d <= 9,
            ;
        }
        acc = acc * 10 + d;
        i += 1;
    }
    proof {
        assert(s@.take(len as int) =~= s@);
    }
    Some(acc)
}

/// What one response line parses to: the 35-character withheld suffix and
/// the decimal count after the separator; anything shorter or with a bad
/// count field is rejected.
pub open spec fn parse_line(l: Seq<char>) -> Option<(Seq<char>, u64)> {
    if l.len() < SUFFIX_CHARS + 1 {
        None
    } else {
        match parse_count(l.skip((SUFFIX_CHARS + 1) as int)) {
            None => None,
            Some(c) => Some((l.take(SUFFIX_CHARS as int), c)),
        }
    }
}

/// What a sequence of response lines parses to: every line in order, or
/// nothing if any line is malformed.
pub open spec fn parse_lines(ls: Seq<Seq<char>>) -> Option<Seq<(Seq<char>, u64)>>
    decreases ls.len(),
{
    if ls.len() == 0 {
        Some(Seq::empty())
    } else {
        match parse_lines(ls.drop_last()) {
            None => None,
            Some(t) => match parse_line(ls.last()) {
                None => None,
                Some(e) => Some(t.push(e)),
            },
        }
    }
}

/// The match table a whole response body stands for.
pub open spec fn corpus_table(body: Seq<char>) -> Option<Seq<(Seq<char>, u64)>> {
    parse_lines(split_lines(body))
}

proof fn lemma_parse_lines_fail(ls: Seq<Seq<char>>, j: int)
    requires
        0 <= j < ls.len(),
        parse_line(ls[j]) is None,
    ensures
        parse_lines(ls) is None,
    decreases ls.len(),
{
    if j == ls.len() - 1 {
    } else {
        assert(ls.drop_last()[j] == ls[j]);
        lemma_parse_lines_fail(ls.drop_last(), j);
    }
}

/// The views of a suffix/count table.
pub open spec fn table_views(t: Seq<(String, u64)>) -> Seq<(Seq<char>, u64)> {
    t.map_values(|p: (String, u64)| (p.0@, p.1))
}

/// Splits a response body into its lines.
fn split_lines_exec(s: &str) -> (r: Vec<String>)
    ensures
        string_views(r@) == split_lines(s@),
{
    let mut acc: Vec<String> = Vec::new();
    let mut rest: &str = s;
    let mut rest_len = s.unicode_len();
    proof {
        assert(string_views(acc@) + split_lines(rest@) =~= split_lines(s@));
    }
    while rest_len > 0
        invariant
            rest_len == rest@.len(),
            string_views(acc@) + split_lines(rest@) == split_lines(s@),
        decreases rest_len,
    {
        let ghost acc0 = acc@;
        let ghost rest0 = rest@;
        // find the first newline of `rest`
        let mut j: usize = 0;
        let mut found = false;
        while j < rest_len && !found
            invariant
                j <= rest_len,
                rest_len == rest@.len(),
                found ==> j < rest_len && rest@[j as int] == '\n',
                forall|q: int| 0 <= q < j ==> rest@[q] != '\n',
            decreases rest_len - j + if found { 0int } else { 1int },
        {
            if rest.get_char(j) == '\n' {
                found = true;
            } else {
                j += 1;
            }
        }
        let upto = if found { j } else { rest_len };
        proof {
            rest@.index_of_first_ensures('\n');
            if found {
                assert(rest@.contains('\n')) by {
                    assert(rest@[j as int] == '\n');
                }
                assert(rest@.index_of_first('\n') == Some(j as int));
            } else {
                match rest@.index_of_first('\n') {
                    Some(q) => {
                        assert(rest@[q] == '\n');
                        assert(false);
                    },
                    None => {},
                }
            }
        }
        // strip a trailing carriage return from the line
        let line_end = if upto > 0 && rest.get_char(upto - 1) == '\r' {
            upto - 1
        } else {
            upto
        };
        let line = rest.substring_char(0, line_end).to_owned();
        proof {
            if found {
                assert(line@ =~= strip_cr(rest@.take(j as int)));
            } else {
                assert(rest@.take(rest_len as int) =~= rest@);
                assert(line@ =~= strip_cr(rest@));
            }
        }
        acc.push(line);
        if found {
            rest = rest.substring_char(j + 1, rest_len);
            rest_len = rest_len - j - 1;
        } else {
            rest = rest.substring_char(rest_len, rest_len);
            rest_len = 0;
        }
        proof {
            if rest0.len() > 0 {
                match rest0.index_of_first('\n') {
                    Some(q) => {
                        assert(split_lines(rest0) == seq![strip_cr(rest0.take(q))] + split_lines(
                            rest0.skip(q + 1),
                        ));
                        assert(rest@ =~= rest0.skip(q + 1));
                    },
                    None => {
                        assert(split_lines(rest0) == seq![strip_cr(rest0)]);
                        assert(rest@ =~= Seq::<char>::empty());
                        assert(split_lines(rest@) =~= Seq::<Seq<char>>::empty());
                    },
                }
            }
            assert(string_views(acc@) =~= string_views(acc0).push(acc@.last()@));
            assert(string_views(acc@) + split_lines(rest@) =~= split_lines(s@));
        }
    }
    proof {
        assert(split_lines(rest@) =~= Seq::<Seq<char>>::empty());
        assert(string_views(acc@) =~= string_views(acc@) + split_lines(rest@));
    }
    acc
}

/// Parses a whole corpus response body into its suffix/count table. Any
/// malformed line rejects the whole body with
/// [`Error::CorpusProtocolError`]; an empty body is an empty table.
pub fn parse_corpus_response(body: &str) -> (r: Result<Vec<(String, u64)>, Error>)
    ensures
        match corpus_table(body@) {
            Some(t) => match r {
                Ok(tbl) => table_views(tbl@) == t,
                Err(_) => false,
            },
            None => r == Err::<Vec<(String, u64)>, Error>(Error::CorpusProtocolError),
        },
{
    let lines = split_lines_exec(body);
    let ghost lv = string_views(lines@);
    let mut table: Vec<(String, u64)> = Vec::new();
    let mut j: usize = 0;
    while j < lines.len()
        invariant
            j <= lines@.len(),
            lv == string_views(lines@),
            lv == split_lines(body@),
            parse_lines(lv.take(j as int)) == Some(table_views(table@)),
        decreases lines@.len() - j,
    {
        let llen = lines[j].as_str().unicode_len();
        if llen < SUFFIX_CHARS + 1 {
            proof {
                assert(parse_line(lv[j as int]) is None);
                lemma_parse_lines_fail(lv, j as int);
            }
            return Err(Error::CorpusProtocolError);
        }
        let count_str = lines[j].as_str().substring_char(SUFFIX_CHARS + 1, llen);
        match parse_u64(count_str) {
            None => {
                proof {
                    assert(count_str@ =~= lv[j as int].skip((SUFFIX_CHARS + 1) as int));
                    assert(parse_line(lv[j as int]) is None);
                    lemma_parse_lines_fail(lv, j as int);
                }
                return Err(Error::CorpusProtocolError);
            },
            Some(c) => {
                let ghost table0 = table@;
                let sfx = lines[j].as_str().substring_char(0, SUFFIX_CHARS).to_owned();
                table.push((sfx, c));
                proof {
                    assert(count_str@ =~= lv[j as int].skip((SUFFIX_CHARS + 1) as int));
                    assert(sfx@ =~= lv[j as int].take(SUFFIX_CHARS as int));
                    assert(parse_line(lv[j as int]) == Some((sfx@, c)));
                    assert(lv.take(j as int + 1).drop_last() =~= lv.take(j as int));
                    assert(table_views(table@) =~= table_views(table0).push((sfx@, c)));
                }
            },
        }
        j += 1;
    }
    proof {
        assert(lv.take(lines@.len() as int) =~= lv);
    }
    Ok(table)
}

/// The count a match table assigns to a withheld suffix: the count of its
/// last entry for that suffix, or zero when the suffix is absent, which
/// means the password is not known-breached.
pub open spec fn lookup_count(t: Seq<(Seq<char>, u64)>, key: Seq<char>) -> u64
    decreases t.len(),
{
    if t.len() == 0 {
        0
    } else if t.last().0 == key {
        t.last().1
    } else {
        lookup_count(t.drop_last(), key)
    }
}

/// Looks a withheld suffix up in a parsed match table.
pub fn lookup(table: &Vec<(String, u64)>, key: &String) -> (r: u64)
    ensures
        r == lookup_count(table_views(table@), key@),
{
    let mut cur: u64 = 0;
    let mut j: usize = 0;
    while j < table.len()
        invariant
            j <= table@.len(),
            cur == lookup_count(table_views(table@).take(j as int), key@),
        decreases table@.len() - j,
    {
        if crate::account::string_eq(&table[j].0, key) {
            cur = table[j].1;
        }
        proof {
            assert(table_views(table@).take(j as int + 1).drop_last() =~= table_views(
                table@,
            ).take(j as int));
            assert(table_views(table@).take(j as int + 1).last() == (table@[j as int].0@,
            table@[j as int].1));
        }
        j += 1;
    }
    proof {
        assert(table_views(table@).take(table@.len() as int) =~= table_views(table@));
    }
    cur
}

} // verus!
