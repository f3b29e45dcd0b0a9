//! The two line patterns of the YAML scanner, matched by the `regex` crate, and
//! what their matches are.

use vstd::prelude::*;
use vstd::string::*;
use crate::text;

verus! {

broadcast use vstd::string::group_string_axioms;

/// A line that carries the tag of a vault block: indentation, what stands
/// before the tag, the tag, and a block scalar indicator.
pub const TAG_PATTERN: &'static str = r"^(\s*)(.*?)!vault\s*\|[+\-]?\d*\s*$";

/// A line with a mapping entry: indentation, the key with its colon, and a
/// scalar.
pub const ENTRY_PATTERN: &'static str = r"^(\s*)((?:- )*[^\s#][^:]*:\s+)(.+?)\s*$";

/// What the groups of a pattern match in a text, the whole match first: none
/// where the pattern does not match.
pub uninterp spec fn regex_groups(pattern: Seq<char>, text: Seq<char>) -> Option<Seq<Option<Seq<char>>>>;

/// The groups as texts.
pub open spec fn group_texts(groups: Option<Vec<Option<String>>>) -> Option<Seq<Option<Seq<char>>>> {
    match groups {
        Some(v) => Some(Seq::new(v@.len(), |i: int| text::opt_text(v@[i]))),
        None => None,
    }
}

/// A character that `\d` matches: a decimal digit of any script, of which ASCII
/// has ten.
pub open spec fn is_decimal(c: char) -> bool {
    if c <= '\u{7f}' {
        '0' <= c <= '9'
    } else {
        regex_groups("^\\d$"@, seq![c]) is Some
    }
}

/// `t` is the tag and its block scalar indicator: `!vault`, white space up to
/// `a`, a bar, perhaps a sign up to `b`, digits up to `c`, white space.
pub open spec fn tag_tail(t: Seq<char>, a: int, b: int, c: int) -> bool {
    &&& 6 <= a < b <= c <= t.len()
    &&& t.take(6) == "!vault"@
    &&& text::blank(t.subrange(6, a))
    &&& t[a] == '|'
    &&& b == a + 1 || (b == a + 2 && (t[a + 1] == '+' || t[a + 1] == '-'))
    &&& forall|n: int| b <= n < c ==> is_decimal(#[trigger] t[n])
    &&& text::blank(t.skip(c))
}

/// `TAG_PATTERN` can match `s` with its first group up to `i` and its second
/// from there to `j`.
pub open spec fn tag_match(s: Seq<char>, i: int, j: int) -> bool {
    &&& 0 <= i <= j <= s.len()
    &&& text::blank(s.take(i))
    &&& forall|n: int| i <= n < j ==> #[trigger] s[n] != '\n'
    &&& exists|a: int, b: int, c: int| tag_tail(s.skip(j), a, b, c)
}

/// Where the parts of an entry line end: the indentation at `indent`, after
/// which come `dashes` list dashes, the colon that ends the key at `colon`, the
/// white space after it at `value`, the scalar at `end`.
pub struct EntryMatch {
    pub indent: int,
    pub dashes: int,
    pub colon: int,
    pub value: int,
    pub end: int,
}

/// `ENTRY_PATTERN` can match `s` with these parts.
pub open spec fn entry_match(s: Seq<char>, m: EntryMatch) -> bool {
    let key = m.indent + 2 * m.dashes;
    &&& 0 <= m.indent
    &&& 0 <= m.dashes
    &&& key < m.colon
    &&& m.colon + 1 < m.value < m.end <= s.len()
    &&& text::blank(s.take(m.indent))
    &&& forall|n: int| 0 <= n < m.dashes ==> #[trigger] text::occurs_at(s, "- "@, m.indent + 2 * n)
    &&& !text::is_ws(s[key]) && s[key] != '#'
    &&& forall|n: int| key < n < m.colon ==> #[trigger] s[n] != ':'
    &&& s[m.colon] == ':'
    &&& text::blank(s.subrange(m.colon + 1, m.value))
    &&& forall|n: int| m.value <= n < m.end ==> #[trigger] s[n] != '\n'
    &&& text::blank(s.skip(m.end))
}

/// `m` is tried before `o`: the greedy parts take as much as they can, from the
/// left, and the scalar as little as it can.
pub open spec fn tried_before(m: EntryMatch, o: EntryMatch) -> bool {
    ||| m.indent > o.indent
    ||| m.indent == o.indent && m.dashes > o.dashes
    ||| m.indent == o.indent && m.dashes == o.dashes && m.colon > o.colon
    ||| m.indent == o.indent && m.dashes == o.dashes && m.colon == o.colon && m.value > o.value
    ||| m.indent == o.indent && m.dashes == o.dashes && m.colon == o.colon && m.value == o.value && m.end < o.end
}

/// `m` is the first match of `ENTRY_PATTERN` in `s`.
pub open spec fn first_entry_match(s: Seq<char>, m: EntryMatch) -> bool {
    &&& entry_match(s, m)
    &&& forall|o: EntryMatch| #[trigger] entry_match(s, o) ==> !tried_before(o, m)
}

/// The groups of `TAG_PATTERN` in `s` are those of its first match, up to `i`
/// and `j`: the first group takes as much as it can, then the second as little.
pub open spec fn tag_captured(s: Seq<char>, groups: Seq<Option<Seq<char>>>, i: int, j: int) -> bool {
    &&& tag_match(s, i, j)
    &&& groups == seq![Some(s), Some(s.take(i)), Some(s.subrange(i, j))]
    &&& forall|k: int, l: int| #[trigger] tag_match(s, k, l) ==> k < i || (k == i && j <= l)
}

/// The groups of `ENTRY_PATTERN` in `s` are those of its first match `m`.
pub open spec fn entry_captured(s: Seq<char>, groups: Seq<Option<Seq<char>>>, m: EntryMatch) -> bool {
    &&& first_entry_match(s, m)
    &&& groups == seq![
        Some(s),
        Some(s.take(m.indent)),
        Some(s.subrange(m.indent, m.value)),
        Some(s.subrange(m.value, m.end)),
    ]
}

/// `regex::Regex::captures` with one of the two patterns: what each group
/// matches, the whole match first.
///
/// The pattern's parts match as the crate's syntax has it: `^` and `$` at the
/// ends of the text, `\s` a character with the property White_Space, `.` any
/// character but a line feed, a class its characters, `\d` a decimal digit. Of
/// several ways to match, the one is taken that a backtracking search finds
/// first: a greedy repetition prefers to take more, a lazy one to take less,
/// and the leftmost part decides first.
#[verifier::external_body]
pub(crate) fn captures(pattern: &str, text: &str) -> (r: Option<Vec<Option<String>>>)
    requires
        pattern@ == TAG_PATTERN@ || pattern@ == ENTRY_PATTERN@,
    ensures
        group_texts(r) == regex_groups(pattern@, text@),
        pattern@ == TAG_PATTERN@ ==> match group_texts(r) {
            Some(g) => exists|i: int, j: int| tag_captured(text@, g, i, j),
            None => forall|i: int, j: int| !#[trigger] tag_match(text@, i, j),
        },
        pattern@ == ENTRY_PATTERN@ ==> match group_texts(r) {
            Some(g) => exists|m: EntryMatch| entry_captured(text@, g, m),
            None => forall|m: EntryMatch| !#[trigger] entry_match(text@, m),
        },
{
    let re: regex::Regex = regex::Regex::new(pattern).expect("pattern");
    re.captures(text).map(|c| c.iter().map(|g| g.map(|m| m.as_str().to_owned())).collect())
}

/// The indentation of a tag line and what stands before its tag; none for other
/// lines.
pub open spec fn tag_of(s: Seq<char>) -> Option<(Seq<char>, Seq<char>)> {
    let i = text::indent_len(s) as int;
    if exists|j: int| tag_match(s, i, j) {
        let j = choose|j: int| tag_match(s, i, j);
        Some((s.take(i), s.subrange(i, j)))
    } else {
        None
    }
}

/// The indentation of an entry line, its key with the colon and the white space
/// after it, and its scalar; none for other lines.
pub open spec fn entry_of(s: Seq<char>) -> Option<(Seq<char>, Seq<char>, Seq<char>)> {
    if exists|m: EntryMatch| first_entry_match(s, m) {
        let m = choose|m: EntryMatch| first_entry_match(s, m);
        Some((s.take(m.indent), s.subrange(m.indent, m.value), s.subrange(m.value, m.end)))
    } else {
        None
    }
}

/// A tag begins with its only exclamation mark.
proof fn lemma_tag_tail(t: Seq<char>, a: int, b: int, c: int)
    requires
        tag_tail(t, a, b, c),
    ensures
        t[0] == '!',
        forall|n: int| 0 < n < t.len() ==> t[n] != '!',
{
    reveal_strlit("!vault");
    assert forall|n: int| 0 <= n < 6 implies t[n] == "!vault"@[n] by {
        assert(t.take(6)[n] == t[n]);
    }
    assert forall|n: int| 0 < n < t.len() implies t[n] != '!' by {
        if n < 6 {
            assert(t[n] == "!vault"@[n]);
        } else if n < a {
            assert(text::is_ws(t.subrange(6, a)[n - 6]));
        } else if n < b {
        } else if n < c {
            assert(is_decimal(t[n]));
        } else {
            assert(text::is_ws(t.skip(c)[n - c]));
        }
    }
}

/// All matches of the tag pattern agree on where the tag begins, and one has
/// the whole indentation in its first group.
pub proof fn lemma_tag_match(s: Seq<char>, i: int, j: int)
    requires
        tag_match(s, i, j),
    ensures
        i <= text::indent_len(s) <= j,
        tag_match(s, text::indent_len(s) as int, j),
        forall|k: int, l: int| #[trigger] tag_match(s, k, l) ==> l == j,
{
    let n = text::indent_len(s) as int;
    text::lemma_indent_len(s);
    let (a, b, c) = choose|a: int, b: int, c: int| tag_tail(s.skip(j), a, b, c);
    lemma_tag_tail(s.skip(j), a, b, c);
    assert(s[j] == '!');
    if n < i {
        assert(s.take(i)[n] == s[n]);
    }
    if n > j {
        assert(s.take(n)[j] == s[j]);
    }
    assert forall|k: int, l: int| #[trigger] tag_match(s, k, l) implies l == j by {
        let (d, e, f) = choose|d: int, e: int, f: int| tag_tail(s.skip(l), d, e, f);
        lemma_tag_tail(s.skip(l), d, e, f);
        if j < l {
            assert(s.skip(j)[l - j] == s.skip(l)[0]);
        } else if l < j {
            assert(s.skip(l)[j - l] == s.skip(j)[0]);
        }
    }
}

/// The parts of a tag line.
pub fn split_tag(line: &str) -> (r: Option<(String, String)>)
    ensures
        match r {
            Some((indent, prefix)) => tag_of(line@) == Some((indent@, prefix@)),
            None => tag_of(line@) is None,
        },
{
    match captures(TAG_PATTERN, line) {
        Some(groups) => {
            let ghost g = group_texts(Some(groups))->0;
            let ghost (i, j) = choose|i: int, j: int| tag_captured(line@, g, i, j);
            proof {
                lemma_tag_match(line@, i, j);
                assert(i == text::indent_len(line@));
                assert(g.len() == groups@.len());
                assert(g.len() == 3);
                assert(g[1] == text::opt_text(groups@[1]));
                assert(g[2] == text::opt_text(groups@[2]));
            }
            match (groups[1].clone(), groups[2].clone()) {
                (Some(indent), Some(prefix)) => Some((indent, prefix)),
                _ => None,
            }
        },
        None => {
            None
        },
    }
}

/// The parts of an entry line.
pub fn split_entry(line: &str) -> (r: Option<(String, String, String)>)
    ensures
        match r {
            Some((indent, prefix, value)) => entry_of(line@) == Some((indent@, prefix@, value@)),
            None => entry_of(line@) is None,
        },
{
    match captures(ENTRY_PATTERN, line) {
        Some(groups) => {
            let ghost g = group_texts(Some(groups))->0;
            let ghost m = choose|m: EntryMatch| entry_captured(line@, g, m);
            proof {
                lemma_first_entry_unique(line@, m);
                assert(g.len() == groups@.len());
                assert(g.len() == 4);
                assert(g[1] == text::opt_text(groups@[1]));
                assert(g[2] == text::opt_text(groups@[2]));
                assert(g[3] == text::opt_text(groups@[3]));
            }
            match (groups[1].clone(), groups[2].clone(), groups[3].clone()) {
                (Some(indent), Some(prefix), Some(value)) => Some((indent, prefix, value)),
                _ => None,
            }
        },
        None => {
            None
        },
    }
}

/// There is one first match.
proof fn lemma_first_entry_unique(s: Seq<char>, m: EntryMatch)
    requires
        first_entry_match(s, m),
    ensures
        forall|o: EntryMatch| #[trigger] first_entry_match(s, o) ==> o == m,
{
    assert forall|o: EntryMatch| #[trigger] first_entry_match(s, o) implies o == m by {
        assert(entry_match(s, o));
        assert(entry_match(s, m));
    }
}

} // verus!
