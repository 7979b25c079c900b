use vstd::prelude::*;

use crate::board::{is_ws, trim_bounds, trimmed};
use crate::types::Move;

verus! {

/// `ch` separates words: whitespace, and also a comma when `commas` holds.
pub open spec fn is_sep(ch: char, commas: bool) -> bool {
    is_ws(ch) || (commas && ch == ',')
}

/// The words of `s` between separators (see `is_sep`), built a character at a time: a
/// separator ends a word, a character after a separator (or first) starts one, any other
/// character extends the last word.
pub open spec fn split_on(s: Seq<char>, commas: bool) -> Seq<Seq<char>>
    decreases s.len(),
{
    if s.len() == 0 {
        Seq::empty()
    } else {
        let t = split_on(s.drop_last(), commas);
        let ch = s.last();
        if is_sep(ch, commas) {
            t
        } else if s.len() >= 2 && !is_sep(s[s.len() - 2], commas) {
            t.update(t.len() - 1, t.last().push(ch))
        } else {
            t.push(seq![ch])
        }
    }
}

/// The whitespace-separated words of `s` (as `str::split_whitespace`).
pub open spec fn split_ws(s: Seq<char>) -> Seq<Seq<char>> {
    split_on(s, false)
}

/// The views of a list of strings.
pub open spec fn views(v: Seq<String>) -> Seq<Seq<char>> {
    v.map_values(|t: String| t@)
}

/// `ch` is an ASCII decimal digit.
pub open spec fn is_digit(ch: char) -> bool {
    '0' <= ch <= '9'
}

/// Every character of `s` is an ASCII decimal digit.
pub open spec fn all_digits(s: Seq<char>) -> bool {
    forall|i: int| 0 <= i < s.len() ==> #[trigger] is_digit(s[i])
}

/// The number the decimal digits `s` write.
pub open spec fn digits_value(s: Seq<char>) -> nat
    decreases s.len(),
{
    if s.len() == 0 {
        0
    } else {
        10 * digits_value(s.drop_last()) + (s.last() as nat - '0' as nat) as nat
    }
}

/// `s` without one leading `'+'`.
pub open spec fn unsigned_body(s: Seq<char>) -> Seq<char> {
    if s.len() > 0 && s[0] == '+' {
        s.drop_first()
    } else {
        s
    }
}

/// What `str::parse::<u64>` gives: an optional `'+'` then one or more digits whose value
/// fits in 64 bits.
pub open spec fn spec_parse_u64(s: Seq<char>) -> Option<u64> {
    let body = unsigned_body(s);
    if body.len() > 0 && all_digits(body) && digits_value(body) <= u64::MAX {
        Some(digits_value(body) as u64)
    } else {
        None
    }
}

/// The value an optional `'+'` or `'-'` then one or more digits write, when they do.
pub open spec fn signed_value(s: Seq<char>) -> Option<int> {
    if s.len() > 0 && (s[0] == '+' || s[0] == '-') {
        let body = s.drop_first();
        if body.len() > 0 && all_digits(body) {
            Some(if s[0] == '-' { -digits_value(body) } else { digits_value(body) as int })
        } else {
            None
        }
    } else if s.len() > 0 && all_digits(s) {
        Some(digits_value(s) as int)
    } else {
        None
    }
}

/// What `str::parse::<i64>` gives.
pub open spec fn spec_parse_i64(s: Seq<char>) -> Option<i64> {
    match signed_value(s) {
        Some(v) => if i64::MIN <= v <= i64::MAX {
            Some(v as i64)
        } else {
            None
        },
        None => None,
    }
}

/// What `str::parse::<i8>` gives.
pub open spec fn spec_parse_i8(s: Seq<char>) -> Option<i8> {
    match signed_value(s) {
        Some(v) => if i8::MIN <= v <= i8::MAX {
            Some(v as i8)
        } else {
            None
        },
        None => None,
    }
}

/// What `str::parse::<i32>` gives.
pub open spec fn spec_parse_i32(s: Seq<char>) -> Option<i32> {
    match signed_value(s) {
        Some(v) => if i32::MIN <= v <= i32::MAX {
            Some(v as i32)
        } else {
            None
        },
        None => None,
    }
}

/// `char::is_whitespace`.
pub fn is_whitespace(ch: char) -> (b: bool)
    ensures
        b == is_ws(ch),
{
    let u = ch as u32;
    (0x9 <= u && u <= 0xd) || u == 0x20 || u == 0x85 || u == 0xa0 || u == 0x1680 || (0x2000 <= u
        && u <= 0x200a) || u == 0x2028 || u == 0x2029 || u == 0x202f || u == 0x205f || u == 0x3000
}

/// The words of `line` between separators; see `split_on`.
pub fn split_words(line: &str, commas: bool) -> (words: Vec<String>)
    ensures
        views(words@) == split_on(line@, commas),
{
    let n = line.unicode_len();
    let ghost s = line@;
    let mut words: Vec<String> = Vec::new();
    let mut in_word = false;
    let mut start: usize = 0;
    let mut i: usize = 0;
    while i < n
        invariant
            n == s.len(),
            s == line@,
            i <= n,
            start <= i,
            !in_word ==> views(words@) == split_on(s.subrange(0, i as int), commas),
            !in_word ==> (i == 0 || is_sep(s[i - 1], commas)),
            in_word ==> start < i && !is_sep(s[i - 1], commas),
            in_word ==> split_on(s.subrange(0, i as int), commas) == views(words@).push(
                s.subrange(start as int, i as int),
            ),
        decreases n - i,
    {
        let ch = line.get_char(i);
        let ghost pre = s.subrange(0, i as int);
        let ghost next = s.subrange(0, i + 1);
        proof {
            assert(next.drop_last() =~= pre);
            assert(next.last() == ch);
            if i >= 1 {
                assert(next[next.len() - 2] == s[i - 1]);
            }
        }
        if is_whitespace(ch) || (commas && ch == ',') {
            if in_word {
                let w = String::from_str(line.substring_char(start, i));
                let ghost prev = words@;
                words.push(w);
                proof {
                    assert(views(words@) =~= views(prev).push(w@));
                }
                in_word = false;
            }
        } else {
            if !in_word {
                start = i;
                in_word = true;
                proof {
                    assert(s.subrange(start as int, i + 1) =~= seq![ch]);
                }
            } else {
                proof {
                    assert(s.subrange(start as int, i + 1) =~= s.subrange(start as int, i as int).push(
                        ch,
                    ));
                    let t = split_on(pre, commas);
                    assert(t.update(t.len() - 1, t.last().push(ch)) =~= views(words@).push(
                        s.subrange(start as int, i + 1),
                    ));
                }
            }
        }
        i += 1;
    }
    if in_word {
        let w = String::from_str(line.substring_char(start, n));
        let ghost prev = words@;
        words.push(w);
        proof {
            assert(views(words@) =~= views(prev).push(w@));
        }
    }
    proof {
        assert(s.subrange(0, n as int) =~= s);
    }
    words
}

/// The whitespace-separated words of `line`; see `split_ws`.
pub fn split_whitespace(line: &str) -> (words: Vec<String>)
    ensures
        views(words@) == split_ws(line@),
{
    split_words(line, false)
}

proof fn lemma_digits_prefix_le(body: Seq<char>, k: int)
    requires
        0 <= k <= body.len(),
        all_digits(body),
    ensures
        digits_value(body.subrange(0, k)) <= digits_value(body),
    decreases body.len() - k,
{
    if k < body.len() {
        let d = body.drop_last();
        assert(all_digits(d)) by {
            assert forall|i: int| 0 <= i < d.len() implies #[trigger] is_digit(d[i]) by {
                assert(is_digit(body[i]));
            }
        }
        lemma_digits_prefix_le(d, k);
        assert(d.subrange(0, k) =~= body.subrange(0, k));
    } else {
        assert(body.subrange(0, k) =~= body);
    }
}

/// The value of the digits `s[from..]`: `None` unless there is at least one character, all
/// are digits, and the value fits in 64 bits.
fn digits_u64(s: &str, from: usize) -> (r: Option<u64>)
    requires
        from <= s@.len(),
    ensures
        ({
            let body = s@.subrange(from as int, s@.len() as int);
            r == if body.len() > 0 && all_digits(body) && digits_value(body) <= u64::MAX {
                Some(digits_value(body) as u64)
            } else {
                None::<u64>
            }
        }),
{
    let n = s.unicode_len();
    let ghost body = s@.subrange(from as int, n as int);
    if from >= n {
        return None;
    }
    let mut v: u64 = 0;
    let mut i = from;
    while i < n
        invariant
            n == s@.len(),
            from < n,
            body == s@.subrange(from as int, n as int),
            from <= i <= n,
            all_digits(body.subrange(0, i - from)),
            v == digits_value(body.subrange(0, i - from)),
        decreases n - i,
    {
        let ch = s.get_char(i);
        let ghost k = i - from;
        proof {
            assert(body[k] == ch);
            assert(body.subrange(0, k + 1).drop_last() =~= body.subrange(0, k));
            assert(body.subrange(0, k + 1).last() == ch);
        }
        if !('0' <= ch && ch <= '9') {
            assert(!is_digit(body[k]));
            return None;
        }
        let d = (ch as u32 - '0' as u32) as u64;
        let m = v.checked_mul(10);
        let next = match m {
            Some(m) => m.checked_add(d),
            None => None,
        };
        match next {
            Some(x) => {
                v = x;
            },
            None => {
                proof {
                    assert(digits_value(body.subrange(0, k + 1)) > u64::MAX);
                    if all_digits(body) {
                        lemma_digits_prefix_le(body, k + 1);
                    }
                }
                return None;
            },
        }
        proof {
            assert(all_digits(body.subrange(0, k + 1))) by {
                assert forall|j: int| 0 <= j < k + 1 implies #[trigger] is_digit(
                    body.subrange(0, k + 1)[j],
                ) by {
                    if j < k {
                        assert(body.subrange(0, k + 1)[j] == body.subrange(0, k)[j]);
                    }
                }
            }
        }
        i += 1;
    }
    proof {
        assert(body.subrange(0, n - from) =~= body);
    }
    Some(v)
}

/// `str::parse::<u64>`, as an option; see `spec_parse_u64`.
pub fn parse_u64(s: &str) -> (r: Option<u64>)
    ensures
        r == spec_parse_u64(s@),
{
    let n = s.unicode_len();
    let from: usize = if n > 0 && s.get_char(0) == '+' {
        1
    } else {
        0
    };
    proof {
        if from == 1 {
            assert(s@.drop_first() =~= s@.subrange(1, n as int));
        } else {
            assert(s@ =~= s@.subrange(0, n as int));
        }
    }
    digits_u64(s, from)
}

/// `str::parse::<i64>`, as an option; see `spec_parse_i64`.
pub fn parse_i64(s: &str) -> (r: Option<i64>)
    ensures
        r == spec_parse_i64(s@),
{
    let n = s.unicode_len();
    let signed = n > 0 && (s.get_char(0) == '+' || s.get_char(0) == '-');
    let negative = n > 0 && s.get_char(0) == '-';
    let from: usize = if signed {
        1
    } else {
        0
    };
    proof {
        if signed {
            assert(s@.drop_first() =~= s@.subrange(1, n as int));
        } else {
            assert(s@ =~= s@.subrange(0, n as int));
        }
    }
    let mag = digits_u64(s, from);
    let ghost body = s@.subrange(from as int, n as int);
    match mag {
        None => {
            proof {
                if body.len() > 0 && all_digits(body) {
                    assert(digits_value(body) > u64::MAX);
                }
            }
            None
        },
        Some(m) => {
            if negative {
                if m <= 9223372036854775808u64 {
                    if m == 9223372036854775808u64 {
                        Some(i64::MIN)
                    } else {
                        Some(-(m as i64))
                    }
                } else {
                    None
                }
            } else {
                if m <= i64::MAX as u64 {
                    Some(m as i64)
                } else {
                    None
                }
            }
        },
    }
}

/// `str::parse::<i8>`, as an option; see `spec_parse_i8`.
pub fn parse_i8(s: &str) -> (r: Option<i8>)
    ensures
        r == spec_parse_i8(s@),
{
    match parse_i64(s) {
        Some(v) => {
            if -128 <= v && v <= 127 {
                Some(v as i8)
            } else {
                None
            }
        },
        None => {
            proof {
                if let Some(v) = signed_value(s@) {
                    assert(!(i64::MIN <= v <= i64::MAX));
                }
            }
            None
        },
    }
}

/// The decimal digit character for `d < 10`.
pub open spec fn digit_char(d: int) -> char {
    ('0' as int + d) as char
}

/// Decimal text of a natural number, without leading zeros.
pub open spec fn nat_text(n: nat) -> Seq<char>
    decreases n,
{
    if n < 10 {
        seq![digit_char(n as int)]
    } else {
        nat_text(n / 10).push(digit_char((n % 10) as int))
    }
}

/// Decimal text of an integer, with `'-'` before a negative one (as `Display` writes it).
pub open spec fn int_text(v: int) -> Seq<char> {
    if v < 0 {
        seq!['-'] + nat_text((-v) as nat)
    } else {
        nat_text(v as nat)
    }
}

/// The one-character text of digit `d`.
pub(crate) fn digit_str(d: u8) -> (s: &'static str)
    requires
        d < 10,
    ensures
        s@ == seq![digit_char(d as int)],
{
    proof {
        reveal_strlit("0");
        reveal_strlit("1");
        reveal_strlit("2");
        reveal_strlit("3");
        reveal_strlit("4");
        reveal_strlit("5");
        reveal_strlit("6");
        reveal_strlit("7");
        reveal_strlit("8");
        reveal_strlit("9");
    }
    match d {
        0 => "0",
        1 => "1",
        2 => "2",
        3 => "3",
        4 => "4",
        5 => "5",
        6 => "6",
        7 => "7",
        8 => "8",
        _ => "9",
    }
}

/// Appends the decimal text of `n` to `out`.
fn append_nat(out: &mut String, n: u32)
    ensures
        final(out)@ == old(out)@ + nat_text(n as nat),
    decreases n,
{
    if n >= 10 {
        append_nat(out, n / 10);
    }
    out.append(digit_str((n % 10) as u8));
    proof {
        if n >= 10 {
            assert(old(out)@ + nat_text(n as nat) =~= old(out)@ + nat_text((n / 10) as nat) + seq![
                digit_char((n % 10) as int),
            ]);
        } else {
            assert(nat_text(n as nat) == seq![digit_char(n as int)]);
        }
    }
}

/// Appends the decimal text of `v` to `out`; see `int_text`.
pub fn append_int(out: &mut String, v: i32)
    ensures
        final(out)@ == old(out)@ + int_text(v as int),
{
    if v < 0 {
        proof {
            reveal_strlit("-");
        }
        out.append("-");
        let m: u32 = if v == i32::MIN {
            2147483648u32
        } else {
            (-v) as u32
        };
        let ghost mid = out@;
        append_nat(out, m);
        proof {
            assert(old(out)@ + int_text(v as int) =~= old(out)@ + seq!['-'] + nat_text(m as nat));
        }
    } else {
        append_nat(out, v as u32);
    }
}

/// `s` with leading and trailing whitespace removed (as `str::trim`).
pub fn trim(s: &str) -> (t: &str)
    ensures
        t@ == trimmed(s@),
{
    let (a, b) = trim_bounds(s);
    s.substring_char(a, b)
}

/// `s` begins with `p` (as `str::starts_with`).
pub open spec fn begins_with(s: Seq<char>, p: Seq<char>) -> bool {
    p.len() <= s.len() && s.subrange(0, p.len() as int) == p
}

/// `p` occurs in `s` (as `str::contains`).
pub open spec fn occurs_in(s: Seq<char>, p: Seq<char>) -> bool {
    exists|i: int| 0 <= i && i + p.len() <= s.len() && #[trigger] s.subrange(i, i + p.len()) == p
}

/// Whether `s` begins with `p`; see `begins_with`.
pub fn starts_with(s: &str, p: &str) -> (b: bool)
    ensures
        b == begins_with(s@, p@),
{
    let n = s.unicode_len();
    let m = p.unicode_len();
    if m > n {
        return false;
    }
    let mut i: usize = 0;
    while i < m
        invariant
            n == s@.len(),
            m == p@.len(),
            m <= n,
            i <= m,
            forall|j: int| 0 <= j < i ==> s@[j] == p@[j],
        decreases m - i,
    {
        if s.get_char(i) != p.get_char(i) {
            assert(s@.subrange(0, m as int)[i as int] != p@[i as int]);
            return false;
        }
        i += 1;
    }
    assert(s@.subrange(0, m as int) =~= p@);
    true
}

/// Whether `p` occurs in `s`; see `occurs_in`.
pub fn contains(s: &str, p: &str) -> (b: bool)
    ensures
        b == occurs_in(s@, p@),
{
    let n = s.unicode_len();
    let m = p.unicode_len();
    if m > n {
        proof {
            assert forall|i: int| 0 <= i && i + m <= n implies #[trigger] s@.subrange(i, i + m)
                != p@ by {}
        }
        return false;
    }
    let mut start: usize = 0;
    while start <= n - m
        invariant
            n == s@.len(),
            m == p@.len(),
            m <= n,
            start <= n - m + 1,
            forall|i: int| 0 <= i < start ==> #[trigger] s@.subrange(i, i + m) != p@,
        decreases n - m + 1 - start,
    {
        let mut j: usize = 0;
        let mut same = true;
        while j < m && same
            invariant
                n == s@.len(),
                m == p@.len(),
                start + m <= n,
                j <= m,
                same ==> forall|k: int| 0 <= k < j ==> s@[start + k] == p@[k],
                !same ==> j > 0 && s@[start + j - 1] != p@[j - 1],
            decreases m - j,
        {
            if s.get_char(start + j) != p.get_char(j) {
                same = false;
            }
            j += 1;
        }
        if same {
            assert(s@.subrange(start as int, start + m) =~= p@);
            return true;
        }
        assert(s@.subrange(start as int, start + m)[j - 1] != p@[j - 1]);
        start += 1;
    }
    false
}

/// The text of a move: its four numbers separated by single spaces.
pub open spec fn move_text(mv: Move) -> Seq<char> {
    int_text(mv.0 as int) + seq![' '] + int_text(mv.1 as int) + seq![' '] + int_text(mv.2 as int)
        + seq![' '] + int_text(mv.3 as int)
}

/// The text of a move; see `move_text`.
pub fn format_move(mv: Move) -> (s: String)
    ensures
        s@ == move_text(mv),
{
    proof {
        reveal_strlit(" ");
    }
    let mut s = String::new();
    append_int(&mut s, mv.0 as i32);
    s.append(" ");
    append_int(&mut s, mv.1 as i32);
    s.append(" ");
    append_int(&mut s, mv.2 as i32);
    s.append(" ");
    append_int(&mut s, mv.3 as i32);
    proof {
        assert(s@ =~= move_text(mv));
    }
    s
}

/// `str::parse::<i32>`, as an option; see `spec_parse_i32`.
pub fn parse_i32(s: &str) -> (r: Option<i32>)
    ensures
        r == spec_parse_i32(s@),
{
    match parse_i64(s) {
        Some(v) => {
            if -2147483648 <= v && v <= 2147483647 {
                Some(v as i32)
            } else {
                None
            }
        },
        None => {
            proof {
                if let Some(v) = signed_value(s@) {
                    assert(!(i64::MIN <= v <= i64::MAX));
                }
            }
            None
        },
    }
}

/// The decimal text of `n` is one or more digits that read back as `n`.
pub proof fn lemma_nat_text_reads_back(n: nat)
    ensures
        nat_text(n).len() > 0,
        all_digits(nat_text(n)),
        digits_value(nat_text(n)) == n,
    decreases n,
{
    if n < 10 {
        let t = nat_text(n);
        assert(t.drop_last() =~= Seq::<char>::empty());
        assert(digit_char(n as int) as nat == 48 + n);
        assert(digits_value(t.drop_last()) == 0);
        assert(is_digit(t[0]));
    } else {
        lemma_nat_text_reads_back(n / 10);
        let t = nat_text(n / 10);
        let d = digit_char((n % 10) as int);
        assert(d as nat == 48 + n % 10);
        assert(nat_text(n) == t.push(d));
        assert(t.push(d).drop_last() =~= t);
        assert(digits_value(t.push(d)) == 10 * digits_value(t) + (d as nat - '0' as nat) as nat);
        assert(10 * (n / 10) + n % 10 == n) by (nonlinear_arith);
        assert forall|i: int| 0 <= i < t.push(d).len() implies #[trigger] is_digit(t.push(d)[i]) by {
            if i < t.len() {
                assert(is_digit(t[i]));
            }
        }
    }
}

/// The decimal text of an integer has no separator in it and reads back as the integer.
pub proof fn lemma_int_text_reads_back(v: int)
    ensures
        int_text(v).len() > 0,
        forall|i: int, commas: bool| 0 <= i < int_text(v).len() ==> !#[trigger] is_sep(int_text(v)[i], commas),
        signed_value(int_text(v)) == Some(v),
{
    if v < 0 {
        let n = (-v) as nat;
        lemma_nat_text_reads_back(n);
        let t = int_text(v);
        assert(t == seq!['-'] + nat_text(n));
        assert(t.drop_first() =~= nat_text(n));
        assert forall|i: int, commas: bool| 0 <= i < t.len() implies !#[trigger] is_sep(t[i], commas) by {
            if i > 0 {
                assert(t[i] == nat_text(n)[i - 1]);
                assert(is_digit(nat_text(n)[i - 1]));
            }
        }
    } else {
        let n = v as nat;
        lemma_nat_text_reads_back(n);
        let t = int_text(v);
        assert(is_digit(t[0]));
        assert forall|i: int, commas: bool| 0 <= i < t.len() implies !#[trigger] is_sep(t[i], commas) by {
            assert(is_digit(t[i]));
        }
    }
}

/// A separator at the end adds no word.
pub proof fn lemma_split_sep(s: Seq<char>, ch: char, commas: bool)
    requires
        is_sep(ch, commas),
    ensures
        split_on(s.push(ch), commas) == split_on(s, commas),
{
    assert(s.push(ch).drop_last() =~= s);
}

/// A word after a separator (or at the start) is the next word.
pub proof fn lemma_split_word(s: Seq<char>, w: Seq<char>, commas: bool)
    requires
        w.len() > 0,
        forall|i: int| 0 <= i < w.len() ==> !#[trigger] is_sep(w[i], commas),
        s.len() == 0 || is_sep(s.last(), commas),
    ensures
        split_on(s + w, commas) == split_on(s, commas).push(w),
    decreases w.len(),
{
    let ch = w.last();
    let v = w.drop_last();
    assert(!is_sep(w[w.len() - 1], commas));
    assert((s + w).drop_last() =~= s + v);
    assert((s + w).last() == ch);
    if v.len() == 0 {
        assert(s + v =~= s);
        assert(w =~= seq![ch]);
        if s.len() > 0 {
            assert((s + w)[(s + w).len() - 2] == s.last());
        }
    } else {
        lemma_split_word(s, v, commas);
        assert((s + w)[(s + w).len() - 2] == v.last());
        assert(!is_sep(w[w.len() - 2], commas));
        assert(v.push(ch) =~= w);
    }
}

/// The words of a move's text are the texts of its four numbers.
pub proof fn lemma_move_text_words(mv: Move)
    ensures
        split_ws(move_text(mv)) == seq![
            int_text(mv.0 as int),
            int_text(mv.1 as int),
            int_text(mv.2 as int),
            int_text(mv.3 as int),
        ],
{
    let a = int_text(mv.0 as int);
    let b = int_text(mv.1 as int);
    let c = int_text(mv.2 as int);
    let d = int_text(mv.3 as int);
    lemma_int_text_reads_back(mv.0 as int);
    lemma_int_text_reads_back(mv.1 as int);
    lemma_int_text_reads_back(mv.2 as int);
    lemma_int_text_reads_back(mv.3 as int);
    assert forall|i: int| 0 <= i < a.len() implies !#[trigger] is_sep(a[i], false) by {}
    assert forall|i: int| 0 <= i < b.len() implies !#[trigger] is_sep(b[i], false) by {}
    assert forall|i: int| 0 <= i < c.len() implies !#[trigger] is_sep(c[i], false) by {}
    assert forall|i: int| 0 <= i < d.len() implies !#[trigger] is_sep(d[i], false) by {}
    assert(is_sep(' ', false));
    let e = Seq::<char>::empty();
    lemma_split_word(e, a, false);
    assert(e + a =~= a);
    lemma_split_sep(a, ' ', false);
    let s1 = a.push(' ');
    lemma_split_word(s1, b, false);
    let s2 = (s1 + b).push(' ');
    lemma_split_sep(s1 + b, ' ', false);
    lemma_split_word(s2, c, false);
    let s3 = (s2 + c).push(' ');
    lemma_split_sep(s2 + c, ' ', false);
    lemma_split_word(s3, d, false);
    assert(s3 + d =~= move_text(mv));
    assert(split_on(e, false) =~= Seq::<Seq<char>>::empty());
    assert(split_ws(move_text(mv)) =~= seq![a, b, c, d]);
}

proof fn lemma_split_nonempty(t: Seq<char>, commas: bool)
    requires
        t.len() > 0,
        !is_sep(t.last(), commas),
    ensures
        split_on(t, commas).len() > 0,
    decreases t.len(),
{
    if t.len() >= 2 && !is_sep(t[t.len() - 2], commas) {
        assert(t.drop_last().last() == t[t.len() - 2]);
        lemma_split_nonempty(t.drop_last(), commas);
    }
}

/// After a separator (or at the start), the words of what follows come after the words
/// before.
pub proof fn lemma_split_concat(s: Seq<char>, t: Seq<char>, commas: bool)
    requires
        s.len() == 0 || is_sep(s.last(), commas),
    ensures
        split_on(s + t, commas) == split_on(s, commas) + split_on(t, commas),
    decreases t.len(),
{
    if t.len() == 0 {
        assert(s + t =~= s);
        assert(split_on(s, commas) + split_on(t, commas) =~= split_on(s, commas));
    } else {
        let u = t.drop_last();
        let ch = t.last();
        lemma_split_concat(s, u, commas);
        assert((s + t).drop_last() =~= s + u);
        assert((s + t).last() == ch);
        let left = split_on(s, commas);
        let w = split_on(u, commas);
        if is_sep(ch, commas) {
        } else if u.len() >= 1 && !is_sep(u.last(), commas) {
            assert((s + t)[(s + t).len() - 2] == u.last());
            assert(t[t.len() - 2] == u.last());
            lemma_split_nonempty(u, commas);
            assert((left + w).last() == w.last());
            assert((left + w).update((left + w).len() - 1, w.last().push(ch)) =~= left + w.update(
                w.len() - 1,
                w.last().push(ch),
            ));
        } else {
            if u.len() >= 1 {
                assert((s + t)[(s + t).len() - 2] == u.last());
                assert(t[t.len() - 2] == u.last());
            } else if s.len() >= 1 {
                assert((s + t)[(s + t).len() - 2] == s.last());
            }
            assert((left + w).push(seq![ch]) =~= left + w.push(seq![ch]));
        }
    }
}

} // verus!
