//! Escape decoding and indentation stripping, run on a template before
//! parsing.

use vstd::prelude::*;
use vstd::string::StrSliceExecFns;
use vstd::string::StringExecFns;

use crate::parse::resume_at;
use crate::text::{byte_from_hex_chars, char_is_whitespace, hex_byte_char, hexdigit_char,
    is_hexdigit, push_char, whitespace_char};

verus! {

/// The decoding of a source text: `\\`, `\n`, `\r`, `\t` and `\xHH` (two
/// hexadecimal digits) become the characters they name; any other `\`
/// sequence, a trailing lone `\`, or `\x` with invalid digits pass through
/// unchanged, backslash included.
pub open spec fn unescape_spec(s: Seq<char>) -> Seq<char>
    decreases s.len(),
{
    if s.len() == 0 {
        Seq::empty()
    } else if s[0] != '\\' {
        seq![s[0]] + unescape_spec(s.drop_first())
    } else if s.len() == 1 {
        seq!['\\']
    } else {
        let c = s[1];
        if c == '\\' {
            seq!['\\'] + unescape_spec(s.skip(2))
        } else if c == 'n' {
            seq!['\n'] + unescape_spec(s.skip(2))
        } else if c == 'r' {
            seq!['\r'] + unescape_spec(s.skip(2))
        } else if c == 't' {
            seq!['\t'] + unescape_spec(s.skip(2))
        } else if c == 'x' {
            if s.len() >= 4 {
                if hexdigit_char(s[2]) && hexdigit_char(s[3]) {
                    seq![hex_byte_char(s[2], s[3])] + unescape_spec(s.skip(4))
                } else {
                    seq!['\\', 'x', s[2], s[3]] + unescape_spec(s.skip(4))
                }
            } else if s.len() == 3 {
                seq!['\\', 'x', s[2]]
            } else {
                seq!['\\', 'x']
            }
        } else {
            seq!['\\', c] + unescape_spec(s.skip(2))
        }
    }
}

/// Unescapes a string: decodes the escape sequences of `unescape_spec`,
/// passing unrecognised sequences through unchanged.
pub fn unescape(s: &str) -> (res: String)
    ensures
        res@ == unescape_spec(s@),
{
    let len = s.unicode_len();
    let mut res = String::new();
    let mut i: usize = 0;
    proof {
        assert(s@.skip(0) =~= s@);
        assert(Seq::<char>::empty() + unescape_spec(s@) =~= unescape_spec(s@));
    }
    while i < len
        invariant
            len == s@.len(),
            i <= len,
            unescape_spec(s@) == res@ + unescape_spec(s@.skip(i as int)),
        decreases len - i,
    {
        let ghost pre = s@.skip(i as int);
        let ghost res0 = res@;
        let c = s.get_char(i);
        if c != '\\' {
            push_char(&mut res, c);
            i = i + 1;
            proof {
                assert(pre.drop_first() =~= s@.skip(i as int));
                assert(unescape_spec(pre) == seq![c] + unescape_spec(s@.skip(i as int)));
                assert(res@ + unescape_spec(s@.skip(i as int)) =~= res0 + unescape_spec(pre));
            }
        } else if i + 1 >= len {
            push_char(&mut res, '\\');
            i = i + 1;
            proof {
                assert(pre.len() == 1);
                assert(unescape_spec(pre) == seq!['\\']);
                assert(s@.skip(i as int) =~= Seq::<char>::empty());
                assert(res@ + unescape_spec(s@.skip(i as int)) =~= res0 + unescape_spec(pre));
            }
        } else {
            let c2 = s.get_char(i + 1);
            if c2 == '\\' || c2 == 'n' || c2 == 'r' || c2 == 't' {
                let decoded: char = if c2 == '\\' {
                    '\\'
                } else if c2 == 'n' {
                    '\n'
                } else if c2 == 'r' {
                    '\r'
                } else {
                    '\t'
                };
                push_char(&mut res, decoded);
                i = i + 2;
                proof {
                    assert(pre[1] == c2);
                    assert(pre.skip(2) =~= s@.skip(i as int));
                    assert(unescape_spec(pre) == seq![decoded] + unescape_spec(s@.skip(i as int)));
                    assert(res@ + unescape_spec(s@.skip(i as int)) =~= res0 + unescape_spec(pre));
                }
            } else if c2 == 'x' {
                if len - i >= 4 {
                    let h1 = s.get_char(i + 2);
                    let h2 = s.get_char(i + 3);
                    if is_hexdigit(h1) && is_hexdigit(h2) {
                        let decoded = byte_from_hex_chars(h1, h2);
                        push_char(&mut res, decoded);
                        i = i + 4;
                        proof {
                            assert(pre[1] == 'x' && pre[2] == h1 && pre[3] == h2);
                            assert(pre.skip(4) =~= s@.skip(i as int));
                            assert(unescape_spec(pre) == seq![hex_byte_char(h1, h2)]
                                + unescape_spec(s@.skip(i as int)));
                            assert(res@ + unescape_spec(s@.skip(i as int)) =~= res0
                                + unescape_spec(pre));
                        }
                    } else {
                        push_char(&mut res, '\\');
                        push_char(&mut res, 'x');
                        push_char(&mut res, h1);
                        push_char(&mut res, h2);
                        i = i + 4;
                        proof {
                            assert(pre[1] == 'x' && pre[2] == h1 && pre[3] == h2);
                            assert(pre.skip(4) =~= s@.skip(i as int));
                            assert(unescape_spec(pre) == seq!['\\', 'x', h1, h2]
                                + unescape_spec(s@.skip(i as int)));
                            assert(res@ + unescape_spec(s@.skip(i as int)) =~= res0
                                + unescape_spec(pre));
                        }
                    }
                } else if len - i == 3 {
                    let h1 = s.get_char(i + 2);
                    push_char(&mut res, '\\');
                    push_char(&mut res, 'x');
                    push_char(&mut res, h1);
                    i = i + 3;
                    proof {
                        assert(pre[1] == 'x' && pre[2] == h1);
                        assert(unescape_spec(pre) == seq!['\\', 'x', h1]);
                        assert(s@.skip(i as int) =~= Seq::<char>::empty());
                        assert(res@ + unescape_spec(s@.skip(i as int)) =~= res0
                            + unescape_spec(pre));
                    }
                } else {
                    push_char(&mut res, '\\');
                    push_char(&mut res, 'x');
                    i = i + 2;
                    proof {
                        assert(pre[1] == 'x' && pre.len() == 2);
                        assert(unescape_spec(pre) == seq!['\\', 'x']);
                        assert(s@.skip(i as int) =~= Seq::<char>::empty());
                        assert(res@ + unescape_spec(s@.skip(i as int)) =~= res0
                            + unescape_spec(pre));
                    }
                }
            } else {
                push_char(&mut res, '\\');
                push_char(&mut res, c2);
                i = i + 2;
                proof {
                    assert(pre[1] == c2);
                    assert(pre.skip(2) =~= s@.skip(i as int));
                    assert(unescape_spec(pre) == seq!['\\', c2] + unescape_spec(
                        s@.skip(i as int),
                    ));
                    assert(res@ + unescape_spec(s@.skip(i as int)) =~= res0 + unescape_spec(pre));
                }
            }
        }
    }
    proof {
        assert(s@.skip(len as int) =~= Seq::<char>::empty());
        assert(res@ =~= unescape_spec(s@));
    }
    res
}

/// The position of the first `'\n'` at or after `i`, or the length if
/// there is none.
pub open spec fn find_newline(s: Seq<char>, i: int) -> int
    decreases s.len() - i,
{
    if i < 0 || i >= s.len() {
        s.len() as int
    } else if s[i] == '\n' {
        i
    } else {
        find_newline(s, i + 1)
    }
}

/// `find_newline` finds the first line break: it never moves backwards,
/// never runs past the end, and stops on `'\n'` alone.
pub proof fn lemma_find_newline(s: Seq<char>, i: int)
    requires
        0 <= i <= s.len(),
    ensures
        i <= find_newline(s, i) <= s.len(),
        find_newline(s, i) < s.len() ==> s[find_newline(s, i)] == '\n',
        forall|j: int| i <= j < find_newline(s, i) ==> s[j] != '\n',
    decreases s.len() - i,
{
    if i < s.len() && s[i] != '\n' {
        lemma_find_newline(s, i + 1);
    }
}

/// The lines of a source, split on `'\n'`; the line breaks themselves are
/// kept by `join_lines`.
pub open spec fn split_from(s: Seq<char>, i: int) -> Seq<Seq<char>>
    decreases s.len() - i,
{
    let end = find_newline(s, i);
    if end >= s.len() {
        seq![s.subrange(i, s.len() as int)]
    } else {
        seq![s.subrange(i, end)] + split_from(s, resume_at(end + 1, i, s.len() as int))
    }
}

/// The lines of a source, split on `'\n'`.
pub open spec fn split_lines(s: Seq<char>) -> Seq<Seq<char>> {
    split_from(s, 0)
}

/// Where the leading whitespace run of a line ends, scanning from `t`.
pub open spec fn lead_ws_from(line: Seq<char>, t: int) -> int
    decreases line.len() - t,
{
    if t < 0 || t >= line.len() || !whitespace_char(line[t]) {
        t
    } else {
        lead_ws_from(line, t + 1)
    }
}

/// The length of a line's leading whitespace run.
pub open spec fn indent_of(line: Seq<char>) -> int {
    lead_ws_from(line, 0)
}

/// Whether a line holds only whitespace.
pub open spec fn blank_line(line: Seq<char>) -> bool {
    forall|j: int| 0 <= j < line.len() ==> whitespace_char(line[j])
}

/// The least indentation among the non-blank lines, folded from `cur`.
pub open spec fn min_indent_from(lines: Seq<Seq<char>>, cur: int) -> int
    decreases lines.len(),
{
    if lines.len() == 0 {
        cur
    } else {
        let head = lines[0];
        let next = if !blank_line(head) && indent_of(head) < cur {
            indent_of(head)
        } else {
            cur
        };
        min_indent_from(lines.drop_first(), next)
    }
}

/// The least indentation among the non-blank lines of a source; the
/// largest machine value when every line is blank, so that nothing is
/// stripped.
pub open spec fn indent_level(s: Seq<char>) -> int {
    min_indent_from(split_lines(s), usize::MAX as int)
}

/// A line with `k` characters stripped from its front; lines shorter than
/// `k` are left as they are.
pub open spec fn strip_indent(line: Seq<char>, k: int) -> Seq<char> {
    if line.len() >= k {
        line.skip(k)
    } else {
        line
    }
}

/// The lines, each stripped of `k` leading characters, joined back with
/// `'\n'`; line count and line breaks are preserved.
pub open spec fn join_lines(lines: Seq<Seq<char>>, k: int) -> Seq<char>
    decreases lines.len(),
{
    if lines.len() == 0 {
        Seq::empty()
    } else if lines.len() == 1 {
        strip_indent(lines[0], k)
    } else {
        strip_indent(lines[0], k) + seq!['\n'] + join_lines(lines.drop_first(), k)
    }
}

/// The unindented form of a source: every line loses the least indentation
/// found among the non-blank lines.
pub open spec fn unindent_spec(s: Seq<char>) -> Seq<char> {
    join_lines(split_lines(s), indent_level(s))
}

/// Whether the current line continues (no line break) at `i`.
fn line_continues(source: &str, i: usize, len: usize) -> (r: bool)
    requires
        len == source@.len(),
    ensures
        r == (i < source@.len() && source@[i as int] != '\n'),
{
    if i >= len {
        false
    } else {
        source.get_char(i) != '\n'
    }
}

/// Finds the end of the line that starts at `i`: the position of the next
/// `'\n'`, or the length if there is none.
fn find_line_end(source: &str, i: usize, len: usize) -> (end: usize)
    requires
        len == source@.len(),
        i <= len,
    ensures
        end as int == find_newline(source@, i as int),
        i <= end <= len,
        end < len ==> source@[end as int] == '\n',
{
    let mut j = i;
    while line_continues(source, j, len)
        invariant
            len == source@.len(),
            i <= j <= len,
            find_newline(source@, i as int) == find_newline(source@, j as int),
        decreases len - j,
    {
        j = j + 1;
    }
    j
}

/// Whether the leading whitespace run continues at `t`.
fn ws_continues(line: &str, t: usize, llen: usize) -> (r: bool)
    requires
        llen == line@.len(),
    ensures
        r == (t < line@.len() && whitespace_char(line@[t as int])),
{
    if t >= llen {
        false
    } else {
        char_is_whitespace(line.get_char(t))
    }
}

/// The length of a line's leading whitespace run.
fn line_indent(line: &str) -> (r: usize)
    ensures
        r as int == indent_of(line@),
{
    let llen = line.unicode_len();
    let mut t: usize = 0;
    while ws_continues(line, t, llen)
        invariant
            llen == line@.len(),
            t <= llen,
            lead_ws_from(line@, 0) == lead_ws_from(line@, t as int),
        decreases llen - t,
    {
        t = t + 1;
    }
    t
}

/// Whether a line holds only whitespace.
fn line_blank(line: &str) -> (r: bool)
    ensures
        r == blank_line(line@),
{
    let llen = line.unicode_len();
    let mut t: usize = 0;
    while t < llen
        invariant
            llen == line@.len(),
            t <= llen,
            forall|j: int| 0 <= j < t ==> whitespace_char(line@[j]),
        decreases llen - t,
    {
        if !char_is_whitespace(line.get_char(t)) {
            return false;
        }
        t = t + 1;
    }
    true
}

/// Calculates the minimum indentation level of a multiline string: the
/// least leading-whitespace run among the lines that are not blank, or the
/// largest machine value when every line is.
pub fn get_indent_level(source: &str) -> (r: usize)
    ensures
        r as int == indent_level(source@),
{
    let len = source.unicode_len();
    let mut min: usize = usize::MAX;
    let mut i: usize = 0;
    loop
        invariant
            len == source@.len(),
            i <= len,
            min_indent_from(split_lines(source@), usize::MAX as int) == min_indent_from(
                split_from(source@, i as int),
                min as int,
            ),
        decreases len - i,
    {
        let ghost lines_here = split_from(source@, i as int);
        let ghost min0 = min as int;
        let end = find_line_end(source, i, len);
        let line = source.substring_char(i, end);
        proof {
            lemma_find_newline(source@, i as int);
            assert(line@ =~= source@.subrange(i as int, end as int));
        }
        if !line_blank(line) {
            let ind = line_indent(line);
            if ind < min {
                min = ind;
            }
        }
        if end >= len {
            proof {
                assert(lines_here =~= seq![line@]);
                assert(lines_here[0] == line@);
                assert(lines_here.drop_first() =~= Seq::<Seq<char>>::empty());
                assert(min_indent_from(lines_here, min0) == min_indent_from(
                    lines_here.drop_first(),
                    min as int,
                ));
                assert(min_indent_from(lines_here.drop_first(), min as int) == min as int);
            }
            return min;
        }
        proof {
            assert(resume_at(end as int + 1, i as int, source@.len() as int) == end as int + 1);
            assert(lines_here == seq![line@] + split_from(source@, end as int + 1));
            assert(lines_here[0] == line@);
            assert(lines_here.drop_first() =~= split_from(source@, end as int + 1));
            assert(min_indent_from(lines_here, min0) == min_indent_from(
                lines_here.drop_first(),
                min as int,
            ));
        }
        i = end + 1;
    }
}


/// Unindents a multi-line string: removes the least indentation found
/// among the non-blank lines from the front of every line, preserving all
/// line breaks and the line count.
pub fn unindent(source: &str) -> (res: String)
    ensures
        res@ == unindent_spec(source@),
{
    let len = source.unicode_len();
    let indent = get_indent_level(source);
    let ghost k = indent as int;
    let mut res = String::new();
    let mut i: usize = 0;
    loop
        invariant
            len == source@.len(),
            i <= len,
            indent as int == indent_level(source@),
            k == indent as int,
            join_lines(split_lines(source@), k) == res@ + join_lines(
                split_from(source@, i as int),
                k,
            ),
        decreases len - i,
    {
        let ghost lines_here = split_from(source@, i as int);
        let ghost res0 = res@;
        let end = find_line_end(source, i, len);
        proof {
            lemma_find_newline(source@, i as int);
        }
        let ghost line = source@.subrange(i as int, end as int);
        if end - i >= indent {
            let piece = source.substring_char(i + indent, end);
            res.append(piece);
            proof {
                assert(line.skip(k) =~= source@.subrange(i as int + k, end as int));
                assert(res@ =~= res0 + strip_indent(line, k));
            }
        } else {
            let piece = source.substring_char(i, end);
            res.append(piece);
            proof {
                assert(res@ =~= res0 + strip_indent(line, k));
            }
        }
        if end >= len {
            proof {
                assert(lines_here =~= seq![line]);
                assert(join_lines(lines_here, k) == strip_indent(line, k));
            }
            return res;
        }
        push_char(&mut res, '\n');
        proof {
            assert(resume_at(end as int + 1, i as int, source@.len() as int) == end as int + 1);
            assert(lines_here == seq![line] + split_from(source@, end as int + 1));
            assert(lines_here.drop_first() =~= split_from(source@, end as int + 1));
            assert(split_from(source@, end as int + 1).len() >= 1);
            assert(lines_here[0] == line);
            assert(join_lines(lines_here, k) == strip_indent(line, k) + seq!['\n'] + join_lines(
                lines_here.drop_first(),
                k,
            ));
            assert(res@ + join_lines(split_from(source@, end as int + 1), k) =~= res0
                + join_lines(lines_here, k));
        }
        i = end + 1;
    }
}

} // verus!
