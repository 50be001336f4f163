//! Decimal number text. The document model carries numbers as literal text;
//! an index is used only where its text is the canonical decimal form of an
//! unsigned 64-bit integer, exactly the texts the JSON grammar produces for
//! such values.

use vstd::prelude::*;

verus! {

broadcast use vstd::group_vstd_default;

pub open spec fn is_digit(c: char) -> bool {
    c == '0' || c == '1' || c == '2' || c == '3' || c == '4' || c == '5' || c == '6' || c == '7'
        || c == '8' || c == '9'
}

pub open spec fn digit_of(c: char) -> int {
    if c == '0' {
        0
    } else if c == '1' {
        1
    } else if c == '2' {
        2
    } else if c == '3' {
        3
    } else if c == '4' {
        4
    } else if c == '5' {
        5
    } else if c == '6' {
        6
    } else if c == '7' {
        7
    } else if c == '8' {
        8
    } else {
        9
    }
}

pub open spec fn digit_char(d: int) -> char {
    if d == 0 {
        '0'
    } else if d == 1 {
        '1'
    } else if d == 2 {
        '2'
    } else if d == 3 {
        '3'
    } else if d == 4 {
        '4'
    } else if d == 5 {
        '5'
    } else if d == 6 {
        '6'
    } else if d == 7 {
        '7'
    } else if d == 8 {
        '8'
    } else {
        '9'
    }
}

pub open spec fn all_digits(s: Seq<char>) -> bool {
    forall|i: int| 0 <= i < s.len() ==> is_digit(#[trigger] s[i])
}

/// The integer a digit string denotes.
pub open spec fn dec_val(s: Seq<char>) -> int
    decreases s.len(),
{
    if s.len() == 0 {
        0
    } else {
        dec_val(s.drop_last()) * 10 + digit_of(s.last())
    }
}

/// The canonical decimal form of an unsigned 64-bit value: digits only, at
/// least one, no leading zero, value in range.
pub open spec fn is_canonical_u64(s: Seq<char>) -> bool {
    &&& s.len() > 0
    &&& all_digits(s)
    &&& (s.len() > 1 ==> s[0] != '0')
    &&& dec_val(s) <= u64::MAX
}

/// What a number text means as an index: its value when it is the canonical
/// decimal form of an unsigned 64-bit integer, nothing otherwise.
pub open spec fn text_u64(s: Seq<char>) -> Option<u64> {
    if is_canonical_u64(s) {
        Some(dec_val(s) as u64)
    } else {
        None
    }
}

/// The canonical decimal text of `n`.
pub open spec fn u64_text(n: int) -> Seq<char>
    decreases n,
{
    if n <= 0 {
        seq!['0']
    } else if n < 10 {
        seq![digit_char(n)]
    } else {
        u64_text(n / 10).push(digit_char(n % 10))
    }
}

pub proof fn lemma_dec_val_nonneg(s: Seq<char>)
    requires
        all_digits(s),
    ensures
        dec_val(s) >= 0,
    decreases s.len(),
{
    if s.len() > 0 {
        assert(all_digits(s.drop_last())) by {
            assert(forall|i: int|
                0 <= i < s.len() - 1 ==> s.drop_last()[i] == #[trigger] s[i]);
        }
        lemma_dec_val_nonneg(s.drop_last());
    }
}

/// A longer digit string denotes at least as much as its prefix.
pub proof fn lemma_dec_val_prefix(s: Seq<char>, j: int)
    requires
        all_digits(s),
        0 <= j <= s.len(),
    ensures
        dec_val(s.subrange(0, j)) <= dec_val(s),
    decreases s.len() - j,
{
    if j == s.len() {
        assert(s.subrange(0, j) =~= s);
    } else {
        lemma_dec_val_prefix(s, j + 1);
        let p = s.subrange(0, j);
        let q = s.subrange(0, j + 1);
        assert(q.drop_last() =~= p);
        assert(all_digits(p)) by {
            assert(forall|i: int| 0 <= i < j ==> p[i] == #[trigger] s[i]);
        }
        lemma_dec_val_nonneg(p);
        assert(dec_val(q) == dec_val(p) * 10 + digit_of(q.last()));
        assert(dec_val(p) * 10 >= dec_val(p)) by (nonlinear_arith)
            requires dec_val(p) >= 0;
    }
}

/// The canonical text of `n` consists of digits, has no leading zero, and
/// denotes `n`.
pub proof fn lemma_u64_text_canonical(n: int)
    requires
        0 <= n <= u64::MAX,
    ensures
        is_canonical_u64(u64_text(n)),
        dec_val(u64_text(n)) == n,
        text_u64(u64_text(n)) == Some(n as u64),
    decreases n,
{
    if n < 10 {
        let s = u64_text(n);
        assert(s.len() == 1);
        assert(s.drop_last() =~= Seq::<char>::empty());
        assert(dec_val(Seq::<char>::empty()) == 0);
        assert(dec_val(s) == dec_val(s.drop_last()) * 10 + digit_of(s.last()));
        assert(dec_val(s) == digit_of(s.last()));
    } else {
        lemma_u64_text_canonical(n / 10);
        let p = u64_text(n / 10);
        let s = u64_text(n);
        assert(s == p.push(digit_char(n % 10)));
        assert(s.drop_last() =~= p);
        assert(s.last() == digit_char(n % 10));
        assert(0 <= n % 10 < 10);
        assert(digit_of(digit_char(n % 10)) == n % 10);
        assert(dec_val(s) == dec_val(p) * 10 + n % 10);
        assert(dec_val(p) == n / 10);
        assert(n / 10 * 10 + n % 10 == n) by {
            vstd::arithmetic::div_mod::lemma_fundamental_div_mod(n, 10);
        }
        assert(all_digits(s)) by {
            assert(forall|i: int| 0 <= i < p.len() ==> s[i] == #[trigger] p[i]);
            assert(is_digit(s[s.len() - 1]));
        }
        assert(s[0] == p[0]);
        assert(n / 10 >= 1);
        assert(p.len() > 1 ==> p[0] != '0');
        if p.len() == 1 {
            assert(p.drop_last() =~= Seq::<char>::empty());
            assert(dec_val(Seq::<char>::empty()) == 0);
            assert(dec_val(p) == dec_val(p.drop_last()) * 10 + digit_of(p.last()));
            assert(digit_of(p[0]) == dec_val(p));
            assert(digit_of(p[0]) >= 1);
            assert(p[0] != '0');
        }
        assert(s[0] != '0');
    }
}

/// Exec digit of a character.
fn digit_of_char(c: char) -> (r: Option<u64>)
    ensures
        match r {
            Some(d) => is_digit(c) && d == digit_of(c) && d < 10,
            None => !is_digit(c),
        },
{
    match c {
        '0' => Some(0),
        '1' => Some(1),
        '2' => Some(2),
        '3' => Some(3),
        '4' => Some(4),
        '5' => Some(5),
        '6' => Some(6),
        '7' => Some(7),
        '8' => Some(8),
        '9' => Some(9),
        _ => None,
    }
}

/// Parse a canonical decimal u64 text; anything else — empty, a leading zero,
/// a sign, an exponent, a fraction, a value out of range — is `None`.
pub fn parse_u64(s: &str) -> (r: Option<u64>)
    ensures
        r == text_u64(s@),
{
    let n = s.unicode_len();
    if n == 0 {
        return None;
    }
    if n > 1 && s.get_char(0) == '0' {
        return None;
    }
    let mut acc: u64 = 0;
    let mut i: usize = 0;
    while i < n
        invariant
            n == s@.len(),
            0 <= i <= n,
            n > 0,
            n > 1 ==> s@[0] != '0',
            all_digits(s@.subrange(0, i as int)),
            acc == dec_val(s@.subrange(0, i as int)),
        decreases n - i,
    {
        let c = s.get_char(i);
        let ghost pre = s@.subrange(0, i as int);
        match digit_of_char(c) {
            Some(d) => {
                proof {
                    assert(s@.subrange(0, i + 1).drop_last() =~= pre);
                    assert(all_digits(s@.subrange(0, i + 1))) by {
                        assert(forall|j: int|
                            0 <= j < i ==> s@.subrange(0, i + 1)[j] == #[trigger] pre[j]);
                        assert(s@.subrange(0, i + 1)[i as int] == c);
                    }
                }
                if acc > (u64::MAX - d) / 10 {
                    proof {
                        lemma_dec_val_nonneg(pre);
                        assert(dec_val(s@.subrange(0, i + 1)) == acc * 10 + d);
                        assert(acc * 10 + d > u64::MAX) by (nonlinear_arith)
                            requires acc > (u64::MAX - d) / 10, 0 <= d < 10, acc >= 0;
                        if all_digits(s@) {
                            lemma_dec_val_prefix(s@, i + 1);
                        }
                    }
                    return None;
                }
                acc = acc * 10 + d;
            },
            None => {
                proof {
                    assert(!all_digits(s@)) by {
                        assert(s@[i as int] == c);
                    }
                }
                return None;
            },
        }
        i += 1;
        proof {
            assert(s@.subrange(0, i as int).last() == c);
        }
    }
    proof {
        assert(s@.subrange(0, n as int) =~= s@);
    }
    Some(acc)
}

fn digit_str(d: u64) -> (r: &'static str)
    requires
        d < 10,
    ensures
        r@ =~= seq![digit_char(d as int)],
{
    proof {
        reveal_strlit("0");
        reveal_strlit("1");
        reveal_strlit("2");
        reveal_strlit("3");
        reveal_strlit("4");
        reveal_strlit("5");
        reveal_strlit("6");
        reveal_strlit("7");
        reveal_strlit("8");
        reveal_strlit("9");
    }
    match d {
        0 => "0",
        1 => "1",
        2 => "2",
        3 => "3",
        4 => "4",
        5 => "5",
        6 => "6",
        7 => "7",
        8 => "8",
        _ => "9",
    }
}

/// The canonical decimal text of `n`.
pub fn format_u64(n: u64) -> (r: String)
    ensures
        r@ == u64_text(n as int),
        text_u64(r@) == Some(n),
    decreases n,
{
    proof {
        lemma_u64_text_canonical(n as int);
    }
    if n < 10 {
        let mut s = String::new();
        s.append(digit_str(n));
        proof {
            assert(s@ =~= u64_text(n as int));
        }
        s
    } else {
        let mut s = format_u64(n / 10);
        s.append(digit_str(n % 10));
        proof {
            assert(s@ =~= u64_text(n as int));
        }
        s
    }
}

/// The value of a decimal text as `str::parse::<u64>` reads it: an optional
/// leading `+`, then one or more digits, leading zeros allowed.
pub open spec fn lenient_u64(s: Seq<char>) -> Option<u64> {
    let core = if s.len() > 0 && s[0] == '+' {
        s.skip(1)
    } else {
        s
    };
    if core.len() > 0 && all_digits(core) && dec_val(core) <= u64::MAX {
        Some(dec_val(core) as u64)
    } else {
        None
    }
}

/// Parse a decimal u64 the way `str::parse::<u64>` does, as
/// [`lenient_u64`] states.
pub fn parse_u64_lenient(s: &str) -> (r: Option<u64>)
    ensures
        r == lenient_u64(s@),
{
    let n = s.unicode_len();
    let start: usize = if n > 0 && s.get_char(0) == '+' {
        1
    } else {
        0
    };
    let ghost core = if s@.len() > 0 && s@[0] == '+' {
        s@.skip(1)
    } else {
        s@
    };
    proof {
        assert(core =~= s@.subrange(start as int, n as int));
    }
    if n == start {
        return None;
    }
    let mut acc: u64 = 0;
    let mut i: usize = start;
    while i < n
        invariant
            n == s@.len(),
            start <= i <= n,
            core == s@.subrange(start as int, n as int),
            core == (if s@.len() > 0 && s@[0] == '+' { s@.skip(1) } else { s@ }),
            core.len() == n - start,
            all_digits(s@.subrange(start as int, i as int)),
            acc == dec_val(s@.subrange(start as int, i as int)),
        decreases n - i,
    {
        let c = s.get_char(i);
        let ghost pre = s@.subrange(start as int, i as int);
        match digit_of_char(c) {
            Some(d) => {
                proof {
                    assert(s@.subrange(start as int, i + 1).drop_last() =~= pre);
                    assert(all_digits(s@.subrange(start as int, i + 1))) by {
                        assert(forall|j: int|
                            0 <= j < i - start ==> s@.subrange(start as int, i + 1)[j]
                                == #[trigger] pre[j]);
                        assert(s@.subrange(start as int, i + 1)[i - start] == c);
                    }
                }
                if acc > (u64::MAX - d) / 10 {
                    proof {
                        lemma_dec_val_nonneg(pre);
                        assert(dec_val(s@.subrange(start as int, i + 1)) == acc * 10 + d);
                        assert(acc * 10 + d > u64::MAX) by (nonlinear_arith)
                            requires acc > (u64::MAX - d) / 10, 0 <= d < 10, acc >= 0;
                        if all_digits(core) {
                            lemma_dec_val_prefix(core, i + 1 - start);
                            assert(core.subrange(0, i + 1 - start)
                                =~= s@.subrange(start as int, i + 1));
                        }
                    }
                    return None;
                }
                acc = acc * 10 + d;
            },
            None => {
                proof {
                    assert(!all_digits(core)) by {
                        assert(core[i - start] == c);
                    }
                }
                return None;
            },
        }
        i += 1;
        proof {
            assert(s@.subrange(start as int, i as int).last() == c);
        }
    }
    proof {
        assert(s@.subrange(start as int, n as int) =~= core);
    }
    Some(acc)
}

/// The position of the first `.` at or after `from`, or the length when none
/// follows.
pub open spec fn seg_end(s: Seq<char>, from: int) -> int
    decreases s.len() - from,
{
    if from < 0 || from >= s.len() {
        s.len() as int
    } else if s[from] == '.' {
        from
    } else {
        seg_end(s, from + 1)
    }
}

pub proof fn lemma_seg_end_bounds(s: Seq<char>, from: int)
    requires
        0 <= from <= s.len(),
    ensures
        from <= seg_end(s, from) <= s.len(),
    decreases s.len() - from,
{
    if from < s.len() && s[from] != '.' {
        lemma_seg_end_bounds(s, from + 1);
    }
}

/// A `major.minor` version string: the text before the first dot and the text
/// between the first and second dots, both read as `str::parse::<u64>` reads
/// them. Nothing when there is no dot or either part does not parse.
pub open spec fn version_pair(s: Seq<char>) -> Option<(u64, u64)> {
    let e0 = seg_end(s, 0);
    if e0 >= s.len() {
        None
    } else {
        let e1 = seg_end(s, e0 + 1);
        match (lenient_u64(s.subrange(0, e0)), lenient_u64(s.subrange(e0 + 1, e1))) {
            (Some(a), Some(b)) => Some((a, b)),
            _ => None,
        }
    }
}

fn find_dot(s: &str, from: usize) -> (r: usize)
    requires
        from <= s@.len(),
    ensures
        r == seg_end(s@, from as int),
        from <= r <= s@.len(),
{
    proof {
        lemma_seg_end_bounds(s@, from as int);
    }
    let n = s.unicode_len();
    let mut i = from;
    while i < n
        invariant
            n == s@.len(),
            from <= i <= n,
            seg_end(s@, from as int) == seg_end(s@, i as int),
        decreases n - i,
    {
        if s.get_char(i) == '.' {
            return i;
        }
        i += 1;
    }
    n
}

/// Read `major` and `minor` out of a version string, as [`version_pair`]
/// states.
pub fn version_major_minor(s: &str) -> (r: Option<(u64, u64)>)
    ensures
        r == version_pair(s@),
{
    let n = s.unicode_len();
    let e0 = find_dot(s, 0);
    if e0 == n {
        return None;
    }
    let e1 = find_dot(s, e0 + 1);
    let major_text = s.substring_char(0, e0);
    let minor_text = s.substring_char(e0 + 1, e1);
    match (parse_u64_lenient(major_text), parse_u64_lenient(minor_text)) {
        (Some(a), Some(b)) => Some((a, b)),
        _ => None,
    }
}

} // verus!
