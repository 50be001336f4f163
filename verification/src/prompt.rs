//! The overwrite prompt's decision: a trimmed, case-folded line of `y` or
//! `yes` means proceed; anything else means leave the existing file alone.

use vstd::prelude::*;

verus! {

broadcast use vstd::group_vstd_default;

/// Whitespace as `str::trim` sees it: the Unicode white-space characters.
pub open spec fn is_ws(c: char) -> bool {
    c == '\u{0009}' || c == '\u{000A}' || c == '\u{000B}' || c == '\u{000C}' || c == '\u{000D}'
        || c == ' ' || c == '\u{0085}' || c == '\u{00A0}' || c == '\u{1680}' || c == '\u{2000}'
        || c == '\u{2001}' || c == '\u{2002}' || c == '\u{2003}' || c == '\u{2004}' || c
        == '\u{2005}' || c == '\u{2006}' || c == '\u{2007}' || c == '\u{2008}' || c == '\u{2009}'
        || c == '\u{200A}' || c == '\u{2028}' || c == '\u{2029}' || c == '\u{202F}' || c
        == '\u{205F}' || c == '\u{3000}'
}

pub open spec fn drop_lead(s: Seq<char>) -> Seq<char>
    decreases s.len(),
{
    if s.len() > 0 && is_ws(s[0]) {
        drop_lead(s.drop_first())
    } else {
        s
    }
}

pub open spec fn drop_trail(s: Seq<char>) -> Seq<char>
    decreases s.len(),
{
    if s.len() > 0 && is_ws(s.last()) {
        drop_trail(s.drop_last())
    } else {
        s
    }
}

pub open spec fn trim_ws(s: Seq<char>) -> Seq<char> {
    drop_trail(drop_lead(s))
}

/// Whether a prompt answer, stripped of surrounding whitespace and folded to
/// lower case, reads `y` or `yes`.
pub open spec fn yes_answer(s: Seq<char>) -> bool {
    let t = trim_ws(s);
    ||| t.len() == 1 && (t[0] == 'y' || t[0] == 'Y')
    ||| (t.len() == 3 && (t[0] == 'y' || t[0] == 'Y') && (t[1] == 'e' || t[1] == 'E') && (t[2]
        == 's' || t[2] == 'S'))
}

fn is_ws_exec(c: char) -> (r: bool)
    ensures
        r == is_ws(c),
{
    c == '\u{0009}' || c == '\u{000A}' || c == '\u{000B}' || c == '\u{000C}' || c == '\u{000D}'
        || c == ' ' || c == '\u{0085}' || c == '\u{00A0}' || c == '\u{1680}' || c == '\u{2000}'
        || c == '\u{2001}' || c == '\u{2002}' || c == '\u{2003}' || c == '\u{2004}' || c
        == '\u{2005}' || c == '\u{2006}' || c == '\u{2007}' || c == '\u{2008}' || c == '\u{2009}'
        || c == '\u{200A}' || c == '\u{2028}' || c == '\u{2029}' || c == '\u{202F}' || c
        == '\u{205F}' || c == '\u{3000}'
}

/// Decide an overwrite-prompt answer, as [`yes_answer`] states.
#[verifier::loop_isolation(false)]
pub fn overwrite_allowed(line: &str) -> (r: bool)
    ensures
        r == yes_answer(line@),
{
    let n = line.unicode_len();
    let mut lo: usize = 0;
    proof {
        assert(line@.skip(0) =~= line@);
    }
    while lo < n && is_ws_exec(line.get_char(lo))
        invariant
            0 <= lo <= n,
            drop_lead(line@) == drop_lead(line@.skip(lo as int)),
        decreases n - lo,
    {
        proof {
            assert(line@.skip(lo as int)[0] == line@[lo as int]);
            assert(line@.skip(lo as int).drop_first() =~= line@.skip(lo + 1));
        }
        lo += 1;
    }
    proof {
        if lo < n {
            assert(line@.skip(lo as int)[0] == line@[lo as int]);
        }
        assert(drop_lead(line@.skip(lo as int)) == line@.skip(lo as int));
    }
    let mut hi: usize = n;
    while hi > lo && is_ws_exec(line.get_char(hi - 1))
        invariant
            lo <= hi <= n,
            drop_trail(line@.skip(lo as int)) == drop_trail(line@.subrange(lo as int, hi as int)),
        decreases hi,
    {
        proof {
            let cur = line@.subrange(lo as int, hi as int);
            assert(cur.last() == line@[hi - 1]);
            assert(cur.drop_last() =~= line@.subrange(lo as int, hi - 1));
        }
        hi -= 1;
    }
    proof {
        let cur = line@.subrange(lo as int, hi as int);
        if hi > lo {
            assert(cur.last() == line@[hi - 1]);
        }
        assert(drop_trail(cur) == cur);
        assert(trim_ws(line@) == line@.subrange(lo as int, hi as int));
    }
    let len = hi - lo;
    if len == 1 {
        let c = line.get_char(lo);
        proof {
            assert(trim_ws(line@)[0] == line@[lo as int]);
        }
        c == 'y' || c == 'Y'
    } else if len == 3 {
        let c0 = line.get_char(lo);
        let c1 = line.get_char(lo + 1);
        let c2 = line.get_char(lo + 2);
        proof {
            assert(trim_ws(line@)[0] == line@[lo as int]);
            assert(trim_ws(line@)[1] == line@[lo as int + 1]);
            assert(trim_ws(line@)[2] == line@[lo as int + 2]);
        }
        (c0 == 'y' || c0 == 'Y') && (c1 == 'e' || c1 == 'E') && (c2 == 's' || c2 == 'S')
    } else {
        false
    }
}

} // verus!
