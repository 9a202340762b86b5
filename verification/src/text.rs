//! Numbers in decimal, and text cut into lines.

use vstd::prelude::*;

verus! {

/// The decimal digit `d`.
pub open spec fn digit(d: nat) -> char {
    (48 + d) as char
}

/// The decimal notation of `n`, without leading zeros.
pub open spec fn decimal(n: nat) -> Seq<char>
    decreases n,
{
    if n < 10 {
        seq![digit(n)]
    } else {
        decimal(n / 10).push(digit(n % 10))
    }
}

/// The number that a string of decimal digits denotes.
pub open spec fn decimal_value(s: Seq<char>) -> int
    decreases s.len(),
{
    if s.len() == 0 {
        0
    } else {
        decimal_value(s.drop_last()) * 10 + (s.last() as int - 48)
    }
}

fn digit_text(d: u8) -> (text: &'static str)
    requires
        d < 10,
    ensures
        text@ == seq![digit(d as nat)],
{
    proof {
        reveal_strlit("0");
        reveal_strlit("1");
        reveal_strlit("2");
        reveal_strlit("3");
        reveal_strlit("4");
        reveal_strlit("5");
        reveal_strlit("6");
        reveal_strlit("7");
        reveal_strlit("8");
        reveal_strlit("9");
    }
    match d {
        0 => "0",
        1 => "1",
        2 => "2",
        3 => "3",
        4 => "4",
        5 => "5",
        6 => "6",
        7 => "7",
        8 => "8",
        _ => "9",
    }
}

/// Writes `n` in decimal.
pub fn decimal_text(n: u128) -> (text: String)
    ensures
        text@ == decimal(n as nat),
    decreases n,
{
    if n < 10 {
        digit_text(n as u8).to_owned()
    } else {
        let mut text = decimal_text(n / 10);
        text.append(digit_text((n % 10) as u8));
        text
    }
}

/// Decimal notation loses nothing: reading it back gives the number that was
/// written.
pub proof fn decimal_reads_back(n: nat)
    ensures
        decimal_value(decimal(n)) == n,
    decreases n,
{
    if n < 10 {
        let s = decimal(n);
        assert(s.drop_last() =~= Seq::<char>::empty());
        assert(decimal_value(s.drop_last()) == 0);
    } else {
        decimal_reads_back(n / 10);
        let s = decimal(n);
        assert(s.drop_last() =~= decimal(n / 10));
    }
}

/// The position of the first line feed in `s` at or after `from`, or the
/// length of `s` if there is none.
pub open spec fn line_end(s: Seq<char>, from: int) -> int
    decreases s.len() - from,
{
    if from >= s.len() {
        s.len() as int
    } else if s[from] == '\n' {
        from
    } else {
        line_end(s, from + 1)
    }
}

/// `line` without the carriage return that it may end with.
pub open spec fn without_return(line: Seq<char>) -> Seq<char> {
    if line.len() > 0 && line.last() == '\r' {
        line.drop_last()
    } else {
        line
    }
}

/// The lines of `s` from position `from` on. A line ends at a line feed, or at
/// a carriage return with a line feed behind it; the last one needs no ending,
/// and an ending at the very end of `s` opens no further line.
pub open spec fn lines_from(s: Seq<char>, from: int) -> Seq<Seq<char>>
    decreases s.len() - from,
    when 0 <= from
    via lines_from_decreases
{
    if from >= s.len() {
        Seq::empty()
    } else {
        let end = line_end(s, from);
        if end == s.len() {
            seq![s.subrange(from, end)]
        } else {
            seq![without_return(s.subrange(from, end))] + lines_from(s, end + 1)
        }
    }
}

#[via_fn]
proof fn lines_from_decreases(s: Seq<char>, from: int) {
    if from < s.len() {
        line_end_bounds(s, from);
    }
}

proof fn line_end_bounds(s: Seq<char>, from: int)
    requires
        0 <= from <= s.len(),
    ensures
        from <= line_end(s, from) <= s.len(),
        line_end(s, from) < s.len() ==> s[line_end(s, from)] == '\n',
        forall|i: int| from <= i < line_end(s, from) ==> s[i] != '\n',
    decreases s.len() - from,
{
    if from < s.len() && s[from] != '\n' {
        line_end_bounds(s, from + 1);
    }
}

/// The lines of `s`.
pub open spec fn lines(s: Seq<char>) -> Seq<Seq<char>> {
    lines_from(s, 0)
}

/// The views of a list of strings.
pub open spec fn texts(v: Seq<String>) -> Seq<Seq<char>> {
    v.map_values(|s: String| s@)
}

/// Cuts `s` into its lines.
pub fn split_lines(s: &str) -> (found: Vec<String>)
    ensures
        texts(found@) == lines(s@),
{
    let len: usize = s.unicode_len();
    let mut found: Vec<String> = Vec::new();
    let mut start: usize = 0;
    let mut at: usize = 0;
    assert(texts(found@) + lines_from(s@, 0) =~= lines(s@));
    while at < len
        invariant
            len == s@.len(),
            start <= at <= len,
            forall|i: int| start <= i < at ==> s@[i] != '\n',
            texts(found@) + lines_from(s@, start as int) =~= lines(s@),
        decreases len - at,
    {
        if s.get_char(at) == '\n' {
            proof {
                line_end_found(s@, start as int, at as int);
            }
            let mut stop: usize = at;
            if start < at && s.get_char(at - 1) == '\r' {
                stop = at - 1;
            }
            let line = s.substring_char(start, stop).to_owned();
            let ghost before = texts(found@);
            found.push(line);
            proof {
                assert(line@ =~= without_return(s@.subrange(start as int, at as int)));
                assert(texts(found@) =~= before + seq![line@]);
                assert(before + (seq![line@] + lines_from(s@, at + 1)) =~= (before + seq![line@])
                    + lines_from(s@, at + 1));
            }
            start = at + 1;
        }
        at = at + 1;
    }
    if start < len {
        proof {
            line_end_found(s@, start as int, len as int);
        }
        let line = s.substring_char(start, len).to_owned();
        let ghost before = texts(found@);
        found.push(line);
        assert(texts(found@) =~= before + seq![line@]);
    } else {
        assert(texts(found@) + lines_from(s@, start as int) =~= texts(found@));
    }
    found
}

/// No line holds a line feed.
pub proof fn lines_hold_no_line_feed(s: Seq<char>, i: int)
    requires
        0 <= i < lines(s).len(),
    ensures
        !lines(s)[i].contains('\n'),
{
    lines_from_hold_no_line_feed(s, 0, i);
}

proof fn lines_from_hold_no_line_feed(s: Seq<char>, from: int, i: int)
    requires
        0 <= from,
        0 <= i < lines_from(s, from).len(),
    ensures
        !lines_from(s, from)[i].contains('\n'),
    decreases s.len() - from,
{
    line_end_bounds(s, from);
    let end = line_end(s, from);
    if i == 0 {
        let line = lines_from(s, from)[0];
        assert forall|k: int| 0 <= k < line.len() implies line[k] != '\n' by {
            assert(line[k] == s[from + k]);
        }
    } else {
        lines_from_hold_no_line_feed(s, end + 1, i - 1);
        assert(lines_from(s, from)[i] == lines_from(s, end + 1)[i - 1]);
    }
}

proof fn line_end_found(s: Seq<char>, from: int, end: int)
    requires
        0 <= from <= end <= s.len(),
        forall|i: int| from <= i < end ==> s[i] != '\n',
        end < s.len() ==> s[end] == '\n',
    ensures
        line_end(s, from) == end,
    decreases end - from,
{
    if from < end {
        line_end_found(s, from + 1, end);
    }
}

/// Decimal notation is made of digits, and it has no leading zero but for zero
/// itself. There is one such notation for each number.
pub proof fn decimal_is_canonical(n: nat)
    ensures
        decimal(n).len() > 0,
        forall|i: int| 0 <= i < decimal(n).len() ==> '0' <= #[trigger] decimal(n)[i] <= '9',
        n > 0 ==> decimal(n)[0] != '0',
        n == 0 ==> decimal(n) == seq!['0'],
    decreases n,
{
    if n >= 10 {
        decimal_is_canonical(n / 10);
        let s = decimal(n);
        let rest = decimal(n / 10);
        assert(s[0] == rest[0]);
        assert forall|i: int| 0 <= i < s.len() implies '0' <= #[trigger] s[i] <= '9' by {
            if i < rest.len() {
                assert(s[i] == rest[i]);
            }
        }
    }
}

/// What is written differs where the numbers do.
pub proof fn decimals_differ(a: nat, b: nat)
    requires
        a != b,
    ensures
        decimal(a) != decimal(b),
{
    decimal_reads_back(a);
    decimal_reads_back(b);
}

proof fn lines_from_later(s: Seq<char>, t: Seq<char>, from: int, by: int)
    requires
        0 <= from <= t.len(),
        by + t.len() == s.len(),
        0 <= by,
        forall|i: int| 0 <= i < t.len() ==> #[trigger] t[i] == s[by + i],
    ensures
        lines_from(s, by + from) == lines_from(t, from),
    decreases t.len() - from,
{
    if from < t.len() {
        line_end_bounds(t, from);
        let end = line_end(t, from);
        assert forall|i: int| by + from <= i < by + end implies s[i] != '\n' by {
            assert(t[i - by] == s[i]);
        }
        if end < t.len() {
            assert(t[end] == s[by + end]);
        }
        line_end_found(s, by + from, by + end);
        let own = s.subrange(by + from, by + end);
        assert forall|k: int| 0 <= k < end - from implies #[trigger] own[k] == t.subrange(
            from,
            end,
        )[k] by {
            assert(t[from + k] == s[by + (from + k)]);
        }
        assert(own =~= t.subrange(from, end));
        if end < t.len() {
            lines_from_later(s, t, end + 1, by);
        }
    }
}

/// Text is cut at its line feeds: what stands before the first one, without a
/// carriage return at its end, is the first line, and the lines of what stands
/// behind it follow.
pub proof fn lines_are_cut_at_line_feeds(first: Seq<char>, rest: Seq<char>)
    requires
        !first.contains('\n'),
    ensures
        ({
            let line = if first.len() > 0 && first.last() == '\r' {
                first.drop_last()
            } else {
                first
            };
            lines(first + seq!['\n'] + rest) == seq![line] + lines(rest)
        }),
{
    let s = first + seq!['\n'] + rest;
    let end = first.len() as int;
    assert forall|i: int| 0 <= i < end implies s[i] != '\n' by {
        assert(first.contains(first[i]));
        assert(s[i] == first[i]);
    }
    line_end_found(s, 0, end);
    assert(s.subrange(0, end) =~= first);
    lines_from_later(s, rest, 0, end + 1);
}

/// Text without a line feed is one line, carriage returns and all, and no text is
/// no line.
pub proof fn last_line_needs_no_line_feed(s: Seq<char>)
    requires
        !s.contains('\n'),
    ensures
        lines(s) == if s.len() == 0 {
            Seq::<Seq<char>>::empty()
        } else {
            seq![s]
        },
{
    if s.len() > 0 {
        assert forall|i: int| 0 <= i < s.len() implies s[i] != '\n' by {
            assert(s.contains(s[i]));
        }
        line_end_found(s, 0, s.len() as int);
        assert(s.subrange(0, s.len() as int) =~= s);
    }
}

} // verus!
