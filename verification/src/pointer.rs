//! The text that tells where the cursor is.
use crate::search::first_where;
use crate::search::lemma_first_where;
use crate::search::lemma_first_where_is_first;
use vstd::prelude::*;

verus! {

/// White space, as Unicode has it.
pub open spec fn is_space(c: char) -> bool {
    ||| '\u{9}' <= c <= '\u{d}'
    ||| c == ' '
    ||| c == '\u{85}'
    ||| c == '\u{a0}'
    ||| c == '\u{1680}'
    ||| '\u{2000}' <= c <= '\u{200a}'
    ||| c == '\u{2028}'
    ||| c == '\u{2029}'
    ||| c == '\u{202f}'
    ||| c == '\u{205f}'
    ||| c == '\u{3000}'
}

/// The length of a text without the white space at its end.
pub open spec fn end_of(s: Seq<char>) -> int
    decreases s.len(),
{
    if s.len() > 0 && is_space(s.last()) {
        end_of(s.drop_last())
    } else {
        s.len() as int
    }
}

/// A text without the white space around it.
pub open spec fn trimmed(s: Seq<char>) -> Seq<char> {
    let start = first_where(s, |c: char| !is_space(c));
    let end = end_of(s);
    if start < end {
        s.subrange(start, end)
    } else {
        Seq::empty()
    }
}

/// Where the first comma with a space behind it is; the length, where there is none.
pub open spec fn comma_at(s: Seq<char>) -> int
    decreases s.len(),
{
    if s.len() == 0 {
        0
    } else if s.len() >= 2 && s[0] == ',' && s[1] == ' ' {
        0
    } else {
        1 + comma_at(s.drop_first())
    }
}

/// What is before the first comma with a space behind it, and what is after the two.
pub open spec fn split(s: Seq<char>) -> (Seq<char>, Option<Seq<char>>) {
    let k = comma_at(s);
    if k < s.len() {
        (s.take(k), Some(s.skip(k + 2)))
    } else {
        (s, None)
    }
}

/// Whether a character is white space.
fn is_white(c: char) -> (r: bool)
    ensures
        r == is_space(c),
{
    let n: u32 = c as u32;
    (0x9 <= n && n <= 0xd) || n == 0x20 || n == 0x85 || n == 0xa0 || n == 0x1680 || (0x2000 <= n
        && n <= 0x200a) || n == 0x2028 || n == 0x2029 || n == 0x202f || n == 0x205f || n == 0x3000
}

/// What there is before the first comma with a space behind it.
proof fn lemma_comma_at(s: Seq<char>, k: int)
    requires
        0 <= k <= s.len(),
        k < s.len() ==> k + 1 < s.len() && s[k] == ',' && s[k + 1] == ' ',
        forall|j: int| 0 <= j < k && j + 1 < s.len() ==> !(#[trigger] s[j] == ',' && s[j + 1] == ' '),
    ensures
        comma_at(s) == k,
    decreases s.len(),
{
    if k > 0 {
        let rest = s.drop_first();
        assert forall|j: int| 0 <= j < k - 1 && j + 1 < rest.len() implies !(#[trigger] rest[j]
            == ',' && rest[j + 1] == ' ') by {
            assert(rest[j] == s[j + 1]);
        }
        assert(!(s[0] == ',' && s.len() >= 2 && s[1] == ' '));
        lemma_comma_at(rest, k - 1);
    }
}

/// White space at the end of a text does not count.
proof fn lemma_end_of(s: Seq<char>, e: int)
    requires
        0 <= e <= s.len(),
        e > 0 ==> !is_space(s[e - 1]),
        forall|j: int| e <= j < s.len() ==> is_space(#[trigger] s[j]),
    ensures
        end_of(s) == e,
    decreases s.len(),
{
    if e < s.len() {
        let rest = s.drop_last();
        assert forall|j: int| e <= j < rest.len() implies is_space(#[trigger] rest[j]) by {
            assert(rest[j] == s[j]);
        }
        assert(is_space(s.last()));
        lemma_end_of(rest, e);
    }
}

/// The text without the white space around it.
fn trim(text: &str) -> (r: &str)
    ensures
        r@ == trimmed(text@),
{
    let ghost p = |c: char| !is_space(c);
    let n: usize = text.unicode_len();
    let mut start: usize = 0;
    while start < n && is_white(text.get_char(start))
        invariant
            start <= n == text@.len(),
            p == (|c: char| !is_space(c)),
            forall|j: int| 0 <= j < start ==> !p(#[trigger] text@[j]),
        decreases n - start,
    {
        start = start + 1;
    }
    let mut end: usize = n;
    while end > start && is_white(text.get_char(end - 1))
        invariant
            start <= end <= n == text@.len(),
            forall|j: int| end <= j < n ==> is_space(#[trigger] text@[j]),
        decreases end,
    {
        end = end - 1;
    }
    proof {
        lemma_first_where(text@, p, start as int);
        if start < n {
            assert(p(text@[start as int]));
            lemma_end_of(text@, end as int);
        } else {
            lemma_end_of(text@, 0);
        }
        assert(text@.subrange(start as int, start as int) =~= Seq::empty());
    }
    text.substring_char(start, end)
}

/// The two numbers of a cursor position as text: what is before the first comma with a space
/// behind it and, if there is one, what is after it, of the text without the white space around
/// it.
pub fn cursor_fields(text: &str) -> (r: (&str, Option<&str>))
    ensures
        r.0@ == split(trimmed(text@)).0,
        match r.1 {
            Some(y) => split(trimmed(text@)).1 == Some(y@),
            None => split(trimmed(text@)).1 is None,
        },
{
    let line: &str = trim(text);
    let n: usize = line.unicode_len();
    let mut k: usize = 0;
    while k < n && n - k > 1
        invariant
            k <= n == line@.len(),
            line@ == trimmed(text@),
            forall|j: int|
                0 <= j < k && j + 1 < n ==> !(#[trigger] line@[j] == ',' && line@[j + 1] == ' '),
        decreases n - k,
    {
        if line.get_char(k) == ',' && line.get_char(k + 1) == ' ' {
            proof {
                lemma_comma_at(line@, k as int);
                assert(line@.subrange(0, k as int) =~= line@.take(k as int));
                assert(line@.subrange(k + 2, n as int) =~= line@.skip(k + 2));
            }
            return (line.substring_char(0, k), Some(line.substring_char(k + 2, n)));
        }
        k = k + 1;
    }
    proof {
        lemma_comma_at(line@, n as int);
    }
    (line, None)
}

/// The code points of white space.
pub proof fn lemma_white_space(c: char)
    ensures
        is_space(c) <==> {
            let n = c as int;
            ||| 9 <= n <= 13
            ||| n == 32
            ||| n == 133
            ||| n == 160
            ||| n == 5760
            ||| 8192 <= n <= 8202
            ||| n == 8232
            ||| n == 8233
            ||| n == 8239
            ||| n == 8287
            ||| n == 12288
        },
{
}

/// Trimming takes away white space only, at both ends, and leaves none there: the text from `a`
/// to `b` is left.
pub proof fn lemma_trimmed(s: Seq<char>) -> (r: (int, int))
    ensures
        ({
            let (a, b) = r;
            let t = trimmed(s);
            &&& 0 <= a <= b <= s.len()
            &&& t == s.subrange(a, b)
            &&& forall|j: int| 0 <= j < a ==> is_space(#[trigger] s[j])
            &&& forall|j: int| b <= j < s.len() ==> is_space(#[trigger] s[j])
            &&& t.len() > 0 ==> !is_space(t[0]) && !is_space(t.last())
        }),
{
    let p = |c: char| !is_space(c);
    let start = first_where(s, p);
    let end = end_of(s);
    lemma_first_where_is_first(s, p);
    lemma_end_of_is_end(s);
    assert forall|j: int| 0 <= j < start implies is_space(#[trigger] s[j]) by {
        assert(!p(s[j]));
    }
    if start < end {
        assert(p(s[start]));
        (start, end)
    } else {
        assert(s.subrange(start, start) =~= Seq::empty());
        (start, start)
    }
}

/// What is at the end of a text is white space, and what is before that is not.
proof fn lemma_end_of_is_end(s: Seq<char>)
    ensures
        0 <= end_of(s) <= s.len(),
        end_of(s) > 0 ==> !is_space(s[end_of(s) - 1]),
        forall|j: int| end_of(s) <= j < s.len() ==> is_space(#[trigger] s[j]),
    decreases s.len(),
{
    if s.len() > 0 && is_space(s.last()) {
        let rest = s.drop_last();
        lemma_end_of_is_end(rest);
        assert forall|j: int| end_of(s) <= j < s.len() implies is_space(#[trigger] s[j]) by {
            if j < rest.len() {
                assert(rest[j] == s[j]);
            }
        }
    }
}

/// Splitting takes a text apart at the first comma with a space behind it, and loses nothing
/// else.
pub proof fn lemma_split(s: Seq<char>)
    ensures
        ({
            let (before, after) = split(s);
            &&& forall|j: int|
                0 <= j < before.len() && j + 1 < s.len() ==> !(#[trigger] s[j] == ',' && s[j + 1]
                    == ' ')
            &&& after is None ==> before == s
            &&& after is Some ==> s == before + seq![',', ' '] + after->0
        }),
{
    lemma_comma_is_first(s);
    let k = comma_at(s);
    if k < s.len() {
        assert(s =~= s.take(k) + seq![',', ' '] + s.skip(k + 2));
    }
}

/// There is a comma with a space behind it at that place, and none before.
proof fn lemma_comma_is_first(s: Seq<char>)
    ensures
        0 <= comma_at(s) <= s.len(),
        comma_at(s) < s.len() ==> comma_at(s) + 1 < s.len() && s[comma_at(s)] == ',' && s[comma_at(
            s,
        ) + 1] == ' ',
        forall|j: int|
            0 <= j < comma_at(s) && j + 1 < s.len() ==> !(#[trigger] s[j] == ',' && s[j + 1] == ' '),
    decreases s.len(),
{
    if s.len() > 0 && !(s.len() >= 2 && s[0] == ',' && s[1] == ' ') {
        let rest = s.drop_first();
        lemma_comma_is_first(rest);
        assert forall|j: int| 0 <= j < comma_at(s) && j + 1 < s.len() implies !(#[trigger] s[j]
            == ',' && s[j + 1] == ' ') by {
            if j > 0 {
                assert(s[j] == rest[j - 1] && s[j + 1] == rest[j]);
            }
        }
    }
}

} // verus!
