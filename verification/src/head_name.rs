use vstd::prelude::*;

use crate::bytes_split::{join_with, lemma_join_push};
use vstd::string::StringSliceAdditionalSpecFns;
use vstd::utf8::{decode_utf8, valid_utf8};

verus! {

broadcast use vstd::string::group_string_axioms;

/// The first index at or after `i` where `c` stands in `s`.
pub open spec fn char_index_from(s: Seq<char>, c: char, i: nat) -> Option<nat>
    decreases s.len() - i,
{
    if i >= s.len() {
        None
    } else if s[i as int] == c {
        Some(i)
    } else {
        char_index_from(s, c, i + 1)
    }
}

/// The index of the first `c` in `s`.
pub open spec fn char_index(s: Seq<char>, c: char) -> Option<nat> {
    char_index_from(s, c, 0)
}

proof fn lemma_char_index_from(s: Seq<char>, c: char, i: nat)
    ensures
        match char_index_from(s, c, i) {
            Some(k) => {
                &&& i <= k < s.len()
                &&& s[k as int] == c
                &&& forall|j: int| i <= j < k ==> s[j] != c
            },
            None => forall|j: int| i <= j < s.len() ==> s[j] != c,
        },
    decreases s.len() - i,
{
    if i < s.len() && s[i as int] != c {
        lemma_char_index_from(s, c, i + 1);
    }
}

/// `char_index` is the least index holding `c`, or `None` when none does.
pub proof fn lemma_char_index(s: Seq<char>, c: char)
    ensures
        match char_index(s, c) {
            Some(k) => {
                &&& k < s.len()
                &&& s[k as int] == c
                &&& forall|j: int| 0 <= j < k ==> s[j] != c
            },
            None => forall|j: int| 0 <= j < s.len() ==> s[j] != c,
        },
{
    lemma_char_index_from(s, c, 0);
}

/// A line without the `\r` of a trailing `\r\n`.
pub open spec fn strip_cr(l: Seq<char>) -> Seq<char> {
    if l.len() > 0 && l.last() == '\r' {
        l.drop_last()
    } else {
        l
    }
}

/// The lines of `s`, as `str::lines` gives them: split at each `\n`, a `\r` just
/// before it dropped, and no empty line after a final `\n`.
pub open spec fn lines_of(s: Seq<char>) -> Seq<Seq<char>>
    decreases s.len(),
{
    if s.len() == 0 {
        Seq::empty()
    } else {
        match char_index(s, '\n') {
            Some(i) => {
                proof {
                    lemma_char_index(s, '\n');
                }
                seq![strip_cr(s.take(i as int))] + lines_of(s.skip(i + 1 as int))
            },
            None => seq![s],
        }
    }
}

/// A line cut at its first space, as `str::split_once(' ')` does.
pub open spec fn split_once_space(l: Seq<char>) -> Option<(Seq<char>, Seq<char>)> {
    match char_index(l, ' ') {
        Some(i) => Some((l.take(i as int), l.skip(i + 1 as int))),
        None => None,
    }
}

/// The (change id, bookmarks) records of `jj log`: one for each line, up to the first
/// line that holds no space.
pub open spec fn records(ls: Seq<Seq<char>>) -> Seq<(Seq<char>, Seq<char>)>
    decreases ls.len(),
{
    if ls.len() == 0 {
        Seq::empty()
    } else {
        match split_once_space(ls[0]) {
            Some(r) => seq![r] + records(ls.drop_first()),
            None => Seq::empty(),
        }
    }
}

/// The non-empty bookmark lists of the records, in order.
pub open spec fn nonempty_bookmarks(rs: Seq<(Seq<char>, Seq<char>)>) -> Seq<Seq<char>>
    decreases rs.len(),
{
    if rs.len() == 0 {
        Seq::empty()
    } else {
        let first: Seq<Seq<char>> = if rs[0].1.len() > 0 {
            seq![rs[0].1]
        } else {
            Seq::empty()
        };
        first + nonempty_bookmarks(rs.drop_first())
    }
}

/// Characters with the Unicode `White_Space` property, which `char::is_whitespace`
/// tests for.
pub open spec fn is_white_space(c: char) -> bool {
    let u = c as u32;
    ||| 9 <= u <= 13
    ||| u == 32
    ||| u == 0x85
    ||| u == 0xa0
    ||| u == 0x1680
    ||| 0x2000 <= u <= 0x200a
    ||| u == 0x2028
    ||| u == 0x2029
    ||| u == 0x202f
    ||| u == 0x205f
    ||| u == 0x3000
}

/// `s` without its leading white space.
pub open spec fn trim_start(s: Seq<char>) -> Seq<char>
    decreases s.len(),
{
    if s.len() > 0 && is_white_space(s[0]) {
        trim_start(s.drop_first())
    } else {
        s
    }
}

/// `s` without its trailing white space.
pub open spec fn trim_end(s: Seq<char>) -> Seq<char>
    decreases s.len(),
{
    if s.len() > 0 && is_white_space(s.last()) {
        trim_end(s.drop_last())
    } else {
        s
    }
}

/// `s` without its leading and trailing white space, as `str::trim` gives it.
pub open spec fn trim(s: Seq<char>) -> Seq<char> {
    trim_end(trim_start(s))
}

/// The name shown for the head in the status line, from the output of
/// `jj log` with one `<change id> <bookmarks>` line per revision, from the working
/// copy back to the last immutable revision.
/// - Bookmarks on the working-copy change itself: `<id> (<bookmarks>)`.
/// - Else bookmarks on its mutable ancestors: `<id> [<their bookmarks, space-separated>]`.
/// - Else just `<id>`.
/// `None` when the first line is missing or holds no space.
pub open spec fn spec_head_name(out: Seq<char>) -> Option<Seq<char>> {
    let rs = records(lines_of(out));
    if rs.len() == 0 {
        None
    } else {
        let rev = rs[0].0;
        let exact = rs[0].1;
        if exact.len() > 0 {
            Some(rev + seq![' ', '('] + exact + seq![')'])
        } else {
            let ancestors = nonempty_bookmarks(rs.drop_first());
            if ancestors.len() == 0 {
                Some(rev)
            } else {
                Some(rev + seq![' ', '['] + trim(join_with(ancestors, seq![' '])) + seq![']'])
            }
        }
    }
}

/// The characters of a string, in order.
fn chars_of(s: &str) -> (v: Vec<char>)
    ensures
        v@ == s@,
{
    let mut v: Vec<char> = Vec::new();
    for c in it: s.chars()
        invariant
            it.seq() == s@,
            v@ == it.seq().take(it.index()),
    {
        v.push(c);
    }
    v
}

/// The index of the first `c` in `cs[from..to]`.
fn find_char(cs: &Vec<char>, from: usize, to: usize, c: char) -> (r: Option<usize>)
    requires
        from <= to <= cs@.len(),
    ensures
        match r {
            Some(k) => from <= k < to && char_index(cs@.subrange(from as int, to as int), c) == Some((k - from) as nat),
            None => char_index(cs@.subrange(from as int, to as int), c) is None,
        },
{
    let ghost sub = cs@.subrange(from as int, to as int);
    proof {
        lemma_char_index(sub, c);
    }
    let mut i = from;
    while i < to
        invariant
            from <= i <= to <= cs@.len(),
            sub == cs@.subrange(from as int, to as int),
            forall|j: int| from <= j < i ==> cs@[j] != c,
        decreases to - i,
    {
        if cs[i] == c {
            assert(sub[i - from] == c);
            assert(forall|j: int| 0 <= j < i - from ==> sub[j] != c);
            assert(char_index(sub, c) == Some((i - from) as nat)) by {
                lemma_char_index(sub, c);
                let d: int = i - from;
                assert(sub[d] == c);
                match char_index(sub, c) {
                    Some(k) => {
                        if k < d {
                            assert(sub[k as int] == cs@[from + k]);
                            assert(false);
                        } else if k > d {
                            assert(sub[d] != c);
                            assert(false);
                        }
                    },
                    None => {
                        assert(sub[d] != c);
                    },
                }
            };
            return Some(i);
        }
        i = i + 1;
    }
    assert(forall|j: int| 0 <= j < sub.len() ==> sub[j] != c);
    None
}

/// The line that starts at `pos`: it ends (before any `\r\n` or `\n`) at `r.0`, and
/// the next line starts at `r.1`.
fn next_line(cs: &Vec<char>, pos: usize) -> (r: (usize, usize))
    requires
        pos < cs@.len(),
    ensures
        pos <= r.0 <= r.1 <= cs@.len(),
        pos < r.1,
        lines_of(cs@.skip(pos as int)) == seq![cs@.subrange(pos as int, r.0 as int)] + lines_of(
            cs@.skip(r.1 as int),
        ),
{
    let len = cs.len();
    let ghost s = cs@.skip(pos as int);
    assert(s =~= cs@.subrange(pos as int, len as int));
    match find_char(cs, pos, len, '\n') {
        Some(i) => {
            proof {
                lemma_char_index(s, '\n');
            }
            assert(s.take(i - pos) =~= cs@.subrange(pos as int, i as int));
            assert(s.skip(i - pos + 1) =~= cs@.skip(i + 1));
            assert(lines_of(s) == seq![strip_cr(s.take(i - pos))] + lines_of(s.skip(i - pos + 1)));
            let end = if i > pos && cs[i - 1] == '\r' {
                i - 1
            } else {
                i
            };
            assert(strip_cr(cs@.subrange(pos as int, i as int)) =~= cs@.subrange(pos as int, end as int));
            (end, i + 1)
        },
        None => {
            assert(lines_of(s) == seq![s]);
            assert(cs@.skip(len as int) =~= Seq::<char>::empty());
            assert(lines_of(cs@.skip(len as int)) =~= Seq::<Seq<char>>::empty());
            assert(lines_of(s) =~= seq![cs@.subrange(pos as int, len as int)] + lines_of(cs@.skip(len as int)));
            (len, len)
        },
    }
}

/// Whether `c` is white space, as `char::is_whitespace` decides it.
pub fn char_is_white_space(c: char) -> (r: bool)
    ensures
        r == is_white_space(c),
{
    let u = c as u32;
    (9 <= u && u <= 13) || u == 32 || u == 0x85 || u == 0xa0 || u == 0x1680 || (0x2000 <= u && u
        <= 0x200a) || u == 0x2028 || u == 0x2029 || u == 0x202f || u == 0x205f || u == 0x3000
}

proof fn lemma_trim_start_at(s: Seq<char>, a: int)
    requires
        0 <= a <= s.len(),
        forall|j: int| 0 <= j < a ==> is_white_space(s[j]),
        a == s.len() || !is_white_space(s[a]),
    ensures
        trim_start(s) == s.skip(a),
    decreases a,
{
    if a == 0 {
        assert(s.skip(0) =~= s);
    } else {
        assert(is_white_space(s[0]));
        let t = s.drop_first();
        assert forall|j: int| 0 <= j < a - 1 implies is_white_space(t[j]) by {
            assert(t[j] == s[j + 1]);
        }
        if a < s.len() {
            assert(t[a - 1] == s[a]);
        }
        lemma_trim_start_at(t, a - 1);
        assert(t.skip(a - 1) =~= s.skip(a));
    }
}

proof fn lemma_trim_end_at(s: Seq<char>, b: int)
    requires
        0 <= b <= s.len(),
        forall|j: int| b <= j < s.len() ==> is_white_space(s[j]),
        b == 0 || !is_white_space(s[b - 1]),
    ensures
        trim_end(s) == s.take(b),
    decreases s.len() - b,
{
    if b == s.len() {
        assert(s.take(b) =~= s);
    } else {
        assert(is_white_space(s.last()));
        let t = s.drop_last();
        assert forall|j: int| b <= j < t.len() implies is_white_space(t[j]) by {
            assert(t[j] == s[j]);
        }
        if b > 0 {
            assert(t[b - 1] == s[b - 1]);
        }
        lemma_trim_end_at(t, b);
        assert(t.take(b) =~= s.take(b));
    }
}

/// `trim` keeps what lies between the leading and the trailing white space.
proof fn lemma_trim_at(s: Seq<char>, a: int, b: int)
    requires
        0 <= a <= b <= s.len(),
        forall|j: int| 0 <= j < a ==> is_white_space(s[j]),
        forall|j: int| b <= j < s.len() ==> is_white_space(s[j]),
        a == s.len() || !is_white_space(s[a]),
        a == b || !is_white_space(s[b - 1]),
    ensures
        trim(s) == s.subrange(a, b),
{
    lemma_trim_start_at(s, a);
    let t = s.skip(a);
    assert forall|j: int| b - a <= j < t.len() implies is_white_space(t[j]) by {
        assert(t[j] == s[j + a]);
    }
    if b > a {
        assert(t[b - a - 1] == s[b - 1]);
    }
    lemma_trim_end_at(t, b - a);
    assert(t.take(b - a) =~= s.subrange(a, b));
}

/// `s` without its leading and trailing white space.
fn trim_str(s: &str) -> (r: &str)
    ensures
        r@ == trim(s@),
{
    let n = s.unicode_len();
    let mut a: usize = 0;
    while a < n && char_is_white_space(s.get_char(a))
        invariant
            n == s@.len(),
            a <= n,
            forall|j: int| 0 <= j < a ==> is_white_space(s@[j]),
        decreases n - a,
    {
        a = a + 1;
    }
    let mut b: usize = n;
    while b > a && char_is_white_space(s.get_char(b - 1))
        invariant
            n == s@.len(),
            a <= b <= n,
            forall|j: int| b <= j < n ==> is_white_space(s@[j]),
        decreases b - a,
    {
        b = b - 1;
    }
    proof {
        if a < n && b == a {
            assert(!is_white_space(s@[a as int]));
        }
        lemma_trim_at(s@, a as int, b as int);
    }
    s.substring_char(a, b)
}

proof fn lemma_records_cons(l: Seq<char>, rest: Seq<Seq<char>>)
    ensures
        records(seq![l] + rest) == match split_once_space(l) {
            Some(r) => seq![r] + records(rest),
            None => Seq::empty(),
        },
{
    let ls = seq![l] + rest;
    assert(ls[0] == l);
    assert(ls.drop_first() =~= rest);
}

proof fn lemma_bookmarks_cons(r: (Seq<char>, Seq<char>), rest: Seq<(Seq<char>, Seq<char>)>)
    ensures
        nonempty_bookmarks(seq![r] + rest) == (if r.1.len() > 0 {
            seq![r.1]
        } else {
            Seq::<Seq<char>>::empty()
        }) + nonempty_bookmarks(rest),
{
    let rs = seq![r] + rest;
    assert(rs[0] == r);
    assert(rs.drop_first() =~= rest);
}

/// The pieces of `cs` that a list of index ranges delimits.
pub open spec fn range_views(cs: Seq<char>, rs: Seq<(usize, usize)>) -> Seq<Seq<char>> {
    rs.map_values(|r: (usize, usize)| cs.subrange(r.0 as int, r.1 as int))
}

/// Why no head name could be read from `jj log`.
#[derive(Debug, PartialEq, Eq, Structural)]
pub enum HeadNameError {
    /// `jj log` ran but reported failure.
    LogFailed,
    /// `jj log` printed bytes that are not UTF-8.
    InvalidUtf8,
    /// The output has no first line with a change id followed by a space.
    NoRevision,
}

/// Extracts the name of the current head from the output of `jj log`.
pub fn extract_head_name(output: &str) -> (r: Result<String, HeadNameError>)
    ensures
        match r {
            Ok(h) => spec_head_name(output@) == Some(h@),
            Err(e) => spec_head_name(output@) is None && e == HeadNameError::NoRevision,
        },
{
    let cs = chars_of(output);
    let len = cs.len();
    if len == 0 {
        assert(lines_of(output@) =~= Seq::<Seq<char>>::empty());
        return Err(HeadNameError::NoRevision);
    }
    let (end1, next1) = next_line(&cs, 0);
    assert(cs@.skip(0) =~= cs@);
    let ghost l1 = cs@.subrange(0, end1 as int);
    let ghost rest_lines = lines_of(cs@.skip(next1 as int));
    proof {
        lemma_records_cons(l1, rest_lines);
    }
    let sp = match find_char(&cs, 0, end1, ' ') {
        Some(sp) => sp,
        None => {
            return Err(HeadNameError::NoRevision);
        },
    };
    assert(l1.take(sp as int) =~= cs@.subrange(0, sp as int));
    assert(l1.skip(sp + 1) =~= cs@.subrange(sp + 1, end1 as int));
    let ghost rs = records(lines_of(output@));
    assert(rs[0] == (cs@.subrange(0, sp as int), cs@.subrange(sp + 1, end1 as int)));
    assert(rs.drop_first() =~= records(rest_lines));

    let rev = output.substring_char(0, sp);
    let mut res = String::new();
    res.append(rev);
    if sp + 1 < end1 {
        let exact = output.substring_char(sp + 1, end1);
        res.append(" (");
        res.append(exact);
        res.append(")");
        proof {
            reveal_strlit(" (");
            reveal_strlit(")");
            assert(" ("@ =~= seq![' ', '(']);
            assert(")"@ =~= seq![')']);
            assert(res@ =~= rev@ + seq![' ', '('] + exact@ + seq![')']);
        }
        return Ok(res);
    }
    assert(rs[0].1.len() == 0);

    // Bookmarks of the mutable ancestors, as index ranges into `cs`.
    let ghost anc = nonempty_bookmarks(records(rest_lines));
    let mut ranges: Vec<(usize, usize)> = Vec::new();
    let mut pos = next1;
    loop
        invariant_except_break
            anc == range_views(cs@, ranges@) + nonempty_bookmarks(records(lines_of(cs@.skip(pos as int)))),
        invariant
            cs@ == output@,
            len == cs@.len(),
            pos <= len,
            forall|k: int| 0 <= k < ranges@.len() ==> (#[trigger] ranges@[k]).0 <= ranges@[k].1 <= len,
        ensures
            anc == range_views(cs@, ranges@),
        decreases len - pos,
    {
        if pos >= len {
            assert(cs@.skip(pos as int) =~= Seq::<char>::empty());
            assert(lines_of(cs@.skip(pos as int)) =~= Seq::<Seq<char>>::empty());
            assert(range_views(cs@, ranges@) + Seq::<Seq<char>>::empty() =~= range_views(cs@, ranges@));
            break;
        }
        let (e, nx) = next_line(&cs, pos);
        let ghost l = cs@.subrange(pos as int, e as int);
        let ghost later = records(lines_of(cs@.skip(nx as int)));
        proof {
            lemma_records_cons(l, lines_of(cs@.skip(nx as int)));
        }
        match find_char(&cs, pos, e, ' ') {
            None => {
                assert(range_views(cs@, ranges@) + Seq::<Seq<char>>::empty() =~= range_views(cs@, ranges@));
                break;
            },
            Some(s2) => {
                let ghost r = (l.take(s2 - pos), l.skip(s2 - pos + 1));
                proof {
                    lemma_bookmarks_cons(r, later);
                }
                assert(l.skip(s2 - pos + 1) =~= cs@.subrange(s2 + 1, e as int));
                let ghost before = range_views(cs@, ranges@);
                if s2 + 1 < e {
                    ranges.push((s2 + 1, e));
                    assert(range_views(cs@, ranges@) =~= before.push(cs@.subrange(s2 + 1, e as int)));
                    assert(before + (seq![r.1] + nonempty_bookmarks(later)) =~= range_views(cs@, ranges@)
                        + nonempty_bookmarks(later));
                } else {
                    assert(before + (Seq::<Seq<char>>::empty() + nonempty_bookmarks(later)) =~= before
                        + nonempty_bookmarks(later));
                }
                pos = nx;
            },
        }
    }
    if ranges.len() == 0 {
        return Ok(res);
    }

    let ghost parts = range_views(cs@, ranges@);
    let ghost sep = seq![' '];
    proof {
        reveal_strlit(" ");
        assert(" "@ =~= sep);
    }
    let mut joined = String::new();
    let mut i: usize = 0;
    while i < ranges.len()
        invariant
            cs@ == output@,
            len == cs@.len(),
            parts == range_views(cs@, ranges@),
            forall|k: int| 0 <= k < ranges@.len() ==> (#[trigger] ranges@[k]).0 <= ranges@[k].1 <= len,
            i <= ranges@.len(),
            joined@ == join_with(parts.take(i as int), sep),
            " "@ == sep,
        decreases ranges@.len() - i,
    {
        let (a, b) = ranges[i];
        let piece = output.substring_char(a, b);
        assert(piece@ == parts[i as int]);
        assert(parts.take(i + 1) =~= parts.take(i as int).push(piece@));
        if i > 0 {
            joined.append(" ");
            proof {
                lemma_join_push(parts.take(i as int), piece@, sep);
            }
        } else {
            assert(parts.take(i as int) =~= Seq::<Seq<char>>::empty());
            assert(parts.take(1)[0] == piece@);
        }
        joined.append(piece);
        proof {
            if i == 0 {
                assert(joined@ =~= piece@);
            }
        }
        i = i + 1;
    }
    assert(parts.take(ranges@.len() as int) =~= parts);
    let trimmed = trim_str(joined.as_str());
    res.append(" [");
    res.append(trimmed);
    res.append("]");
    proof {
        reveal_strlit(" [");
        reveal_strlit("]");
        assert(" ["@ =~= seq![' ', '[']);
        assert("]"@ =~= seq![']']);
        assert(res@ =~= rev@ + seq![' ', '['] + trimmed@ + seq![']']);
    }
    Ok(res)
}

/// Reads bytes as UTF-8 text (`std::str::from_utf8`). As its documentation states,
/// it succeeds exactly when the bytes are valid UTF-8, and the text it returns is
/// made of those same bytes.
#[verifier::external_body]
fn str_from_utf8(bytes: &[u8]) -> (r: Option<&str>)
    ensures
        r is Some <==> valid_utf8(bytes@),
        r matches Some(s) ==> s.spec_bytes() == bytes@,
{
    std::str::from_utf8(bytes).ok()
}

/// The head name from a run of `jj log`: `ok` tells whether the command reported
/// success and `stdout` is what it printed.
pub fn head_name_from_log(ok: bool, stdout: &[u8]) -> (r: Result<String, HeadNameError>)
    ensures
        !ok ==> r == Err::<String, HeadNameError>(HeadNameError::LogFailed),
        ok && !valid_utf8(stdout@) ==> r == Err::<String, HeadNameError>(HeadNameError::InvalidUtf8),
        ok && valid_utf8(stdout@) ==> match spec_head_name(decode_utf8(stdout@)) {
            Some(h) => r matches Ok(s) && s@ == h,
            None => r == Err::<String, HeadNameError>(HeadNameError::NoRevision),
        },
{
    if !ok {
        return Err(HeadNameError::LogFailed);
    }
    match str_from_utf8(stdout) {
        None => Err(HeadNameError::InvalidUtf8),
        Some(text) => {
            proof {
                vstd::utf8::encode_utf8_decode_utf8(text@);
            }
            extract_head_name(text)
        },
    }
}

/// `k` is the index of the first `c` in `s`.
proof fn lemma_char_index_is(s: Seq<char>, c: char, k: int)
    requires
        0 <= k < s.len(),
        s[k] == c,
        forall|j: int| 0 <= j < k ==> s[j] != c,
    ensures
        char_index(s, c) == Some(k as nat),
{
    lemma_char_index(s, c);
    match char_index(s, c) {
        Some(f) => {
            if f < k {
                assert(s[f as int] == c);
            } else if f > k {
                assert(s[k] == c);
            }
        },
        None => {
            assert(s[k] == c);
        },
    }
}

/// The first line of `s` is a prefix of `s` that holds no `\n`.
proof fn lemma_first_line_prefix(s: Seq<char>)
    requires
        s.len() > 0,
    ensures
        lines_of(s).len() > 0,
        lines_of(s)[0].len() <= s.len(),
        lines_of(s)[0] == s.take(lines_of(s)[0].len() as int),
        forall|q: int| 0 <= q < lines_of(s)[0].len() ==> s[q] != '\n',
{
    lemma_char_index(s, '\n');
    match char_index(s, '\n') {
        Some(i) => {
            let t = s.take(i as int);
            assert(lines_of(s)[0] == strip_cr(t));
            if t.len() > 0 && t.last() == '\r' {
                assert(t.drop_last() =~= s.take(i - 1));
            }
        },
        None => {
            assert(lines_of(s)[0] == s);
            assert(s.take(s.len() as int) =~= s);
        },
    }
}

/// A head name is found exactly when the output has a first line and that line holds
/// a space.
pub proof fn lemma_head_name_found_iff(out: Seq<char>)
    ensures
        spec_head_name(out) is Some <==> (lines_of(out).len() > 0 && split_once_space(lines_of(out)[0]) is Some),
{
    let ls = lines_of(out);
    if ls.len() > 0 {
        assert(records(ls) == match split_once_space(ls[0]) {
            Some(r) => seq![r] + records(ls.drop_first()),
            None => Seq::<(Seq<char>, Seq<char>)>::empty(),
        });
    }
}

/// A head name always begins with the change id: the text before the first space
/// of the output, which lies on its first line.
pub proof fn lemma_head_name_begins_with_change_id(out: Seq<char>)
    requires
        spec_head_name(out) is Some,
    ensures
        char_index(out, ' ') is Some,
        forall|q: int| 0 <= q < char_index(out, ' ')->0 ==> out[q] != '\n',
        spec_head_name(out)->0.take(char_index(out, ' ')->0 as int) == out.take(
            char_index(out, ' ')->0 as int,
        ),
{
    lemma_head_name_found_iff(out);
    let ls = lines_of(out);
    if out.len() == 0 {
        assert(ls.len() == 0);
    }
    lemma_first_line_prefix(out);
    let l0 = ls[0];
    lemma_char_index(l0, ' ');
    let j = char_index(l0, ' ')->0 as int;
    assert forall|q: int| 0 <= q < j implies out[q] != ' ' by {
        assert(l0[q] == out[q]);
    }
    assert(l0[j] == out[j]);
    lemma_char_index_is(out, ' ', j);
    let rs = records(ls);
    assert(rs[0] == split_once_space(l0)->0);
    let rev = rs[0].0;
    assert(rev =~= out.take(j));
    let h = spec_head_name(out)->0;
    assert(h.take(j) =~= rev);
}

/// The output of `jj log` for revisions with these change ids and bookmark lists:
/// one `<id> <bookmarks>` line each, every line ended by `\n`.
pub open spec fn log_text(ids: Seq<Seq<char>>, bookmarks: Seq<Seq<char>>) -> Seq<char>
    decreases ids.len(),
{
    if ids.len() == 0 || bookmarks.len() == 0 {
        Seq::empty()
    } else {
        ids[0] + seq![' '] + bookmarks[0] + seq!['\n'] + log_text(ids.drop_first(), bookmarks.drop_first())
    }
}

/// Bookmark lists that are not empty.
pub open spec fn is_nonempty() -> spec_fn(Seq<char>) -> bool {
    |b: Seq<char>| b.len() > 0
}

/// A line without `\n`, then `\n`, then the rest: that line comes first.
proof fn lemma_lines_cons(a: Seq<char>, rest: Seq<char>)
    requires
        forall|i: int| 0 <= i < a.len() ==> a[i] != '\n',
    ensures
        lines_of(a + seq!['\n'] + rest) == seq![strip_cr(a)] + lines_of(rest),
{
    let s = a + seq!['\n'] + rest;
    let k = a.len() as int;
    assert forall|j: int| 0 <= j < k implies s[j] != '\n' by {
        assert(s[j] == a[j]);
    }
    lemma_char_index_is(s, '\n', k);
    assert(s.take(k) =~= a);
    assert(s.skip(k + 1) =~= rest);
}

/// `id` followed by a space and `b` splits at that space when `id` holds none.
proof fn lemma_split_record(id: Seq<char>, b: Seq<char>)
    requires
        forall|i: int| 0 <= i < id.len() ==> id[i] != ' ',
    ensures
        split_once_space(id + seq![' '] + b) == Some((id, b)),
{
    let l = id + seq![' '] + b;
    let k = id.len() as int;
    assert forall|j: int| 0 <= j < k implies l[j] != ' ' by {
        assert(l[j] == id[j]);
    }
    lemma_char_index_is(l, ' ', k);
    assert(l.take(k) =~= id);
    assert(l.skip(k + 1) =~= b);
}

proof fn lemma_log_records(ids: Seq<Seq<char>>, bookmarks: Seq<Seq<char>>)
    requires
        ids.len() == bookmarks.len(),
        forall|k: int, i: int| 0 <= k < ids.len() && 0 <= i < ids[k].len() ==> #[trigger] ids[k][i] != ' ' && ids[k][i] != '\n',
        forall|k: int, i: int| 0 <= k < bookmarks.len() && 0 <= i < bookmarks[k].len() ==> #[trigger] bookmarks[k][i] != '\n',
        forall|k: int| 0 <= k < bookmarks.len() ==> (#[trigger] bookmarks[k]).len() == 0 || bookmarks[k].last() != '\r',
    ensures
        records(lines_of(log_text(ids, bookmarks))) == Seq::new(ids.len(), |i: int| (ids[i], bookmarks[i])),
    decreases ids.len(),
{
    if ids.len() == 0 {
        assert(log_text(ids, bookmarks) =~= Seq::<char>::empty());
        assert(lines_of(Seq::<char>::empty()) =~= Seq::<Seq<char>>::empty());
        assert(records(Seq::<Seq<char>>::empty()) =~= Seq::new(ids.len(), |i: int| (ids[i], bookmarks[i])));
    } else {
        let id = ids[0];
        let b = bookmarks[0];
        let line = id + seq![' '] + b;
        let rest_ids = ids.drop_first();
        let rest_bms = bookmarks.drop_first();
        let rest = log_text(rest_ids, rest_bms);
        assert(log_text(ids, bookmarks) =~= line + seq!['\n'] + rest);
        assert forall|i: int| 0 <= i < line.len() implies line[i] != '\n' by {
            if i < id.len() {
                assert(line[i] == ids[0][i]);
            } else if i > id.len() {
                assert(line[i] == bookmarks[0][i - id.len() - 1]);
            }
        }
        lemma_lines_cons(line, rest);
        if b.len() > 0 {
            assert(line.last() == b.last());
        }
        assert(strip_cr(line) == line);
        assert forall|i: int| 0 <= i < id.len() implies id[i] != ' ' by {
            assert(ids[0][i] != ' ');
        }
        lemma_split_record(id, b);
        lemma_records_cons(line, lines_of(rest));
        assert forall|k: int, i: int| 0 <= k < rest_ids.len() && 0 <= i < rest_ids[k].len() implies #[trigger] rest_ids[k][i] != ' ' && rest_ids[k][i] != '\n' by {
            assert(rest_ids[k] == ids[k + 1]);
            assert(ids[k + 1][i] != ' ');
        }
        assert forall|k: int, i: int| 0 <= k < rest_bms.len() && 0 <= i < rest_bms[k].len() implies #[trigger] rest_bms[k][i] != '\n' by {
            assert(rest_bms[k] == bookmarks[k + 1]);
            assert(bookmarks[k + 1][i] != '\n');
        }
        assert forall|k: int| 0 <= k < rest_bms.len() implies (#[trigger] rest_bms[k]).len() == 0 || rest_bms[k].last() != '\r' by {
            assert(rest_bms[k] == bookmarks[k + 1]);
        }
        lemma_log_records(rest_ids, rest_bms);
        assert(seq![(id, b)] + Seq::new(rest_ids.len(), |i: int| (rest_ids[i], rest_bms[i])) =~= Seq::new(
            ids.len(),
            |i: int| (ids[i], bookmarks[i]),
        ));
    }
}

proof fn lemma_nonempty_bookmarks_filter(rs: Seq<(Seq<char>, Seq<char>)>)
    ensures
        nonempty_bookmarks(rs) == rs.map_values(|r: (Seq<char>, Seq<char>)| r.1).filter(is_nonempty()),
    decreases rs.len(),
{
    reveal_with_fuel(Seq::filter, 2);
    let bs = rs.map_values(|r: (Seq<char>, Seq<char>)| r.1);
    if rs.len() == 0 {
        assert(bs.len() == 0);
    } else {
        let rest = rs.drop_first();
        lemma_nonempty_bookmarks_filter(rest);
        assert(bs =~= seq![rs[0].1] + rest.map_values(|r: (Seq<char>, Seq<char>)| r.1));
        Seq::filter_distributes_over_add(seq![rs[0].1], rest.map_values(|r: (Seq<char>, Seq<char>)| r.1), is_nonempty());
        let one = seq![rs[0].1];
        assert(one.drop_last() =~= Seq::<Seq<char>>::empty());
        assert(one.last() == rs[0].1);
        if rs[0].1.len() > 0 {
            assert(one.filter(is_nonempty()) =~= seq![rs[0].1]);
        } else {
            assert(one.filter(is_nonempty()) =~= Seq::<Seq<char>>::empty());
        }
    }
}

/// The head name read from a `jj log` output made of one `<id> <bookmarks>` line per
/// revision (ids without spaces or line feeds, bookmark lists without line feeds and
/// not ending in `\r`):
/// - bookmarks on the working-copy change: `<id> (<its bookmarks>)`;
/// - else, when any later revision has bookmarks: `<id> [<all the later non-empty
///   bookmark lists, joined by spaces and trimmed>]`, however many revisions without
///   bookmarks stand in between;
/// - else `<id>`.
pub proof fn lemma_head_name_of_log(ids: Seq<Seq<char>>, bookmarks: Seq<Seq<char>>)
    requires
        ids.len() == bookmarks.len(),
        ids.len() >= 1,
        forall|k: int, i: int| 0 <= k < ids.len() && 0 <= i < ids[k].len() ==> #[trigger] ids[k][i] != ' ' && ids[k][i] != '\n',
        forall|k: int, i: int| 0 <= k < bookmarks.len() && 0 <= i < bookmarks[k].len() ==> #[trigger] bookmarks[k][i] != '\n',
        forall|k: int| 0 <= k < bookmarks.len() ==> (#[trigger] bookmarks[k]).len() == 0 || bookmarks[k].last() != '\r',
    ensures
        spec_head_name(log_text(ids, bookmarks)) == Some(
            if bookmarks[0].len() > 0 {
                ids[0] + seq![' ', '('] + bookmarks[0] + seq![')']
            } else if bookmarks.drop_first().filter(is_nonempty()).len() == 0 {
                ids[0]
            } else {
                ids[0] + seq![' ', '['] + trim(join_with(bookmarks.drop_first().filter(is_nonempty()), seq![' ']))
                    + seq![']']
            },
        ),
{
    lemma_log_records(ids, bookmarks);
    let rs = records(lines_of(log_text(ids, bookmarks)));
    assert(rs[0] == (ids[0], bookmarks[0]));
    lemma_nonempty_bookmarks_filter(rs.drop_first());
    assert(rs.drop_first().map_values(|r: (Seq<char>, Seq<char>)| r.1) =~= bookmarks.drop_first());
}

/// A revision without bookmarks right after the working copy changes nothing in the
/// head name: its line can be removed, or another added, without effect.
pub proof fn lemma_bare_revision_changes_nothing(first: Seq<char>, id: Seq<char>, rest: Seq<char>)
    requires
        forall|i: int| 0 <= i < first.len() ==> first[i] != '\n',
        forall|i: int| 0 <= i < id.len() ==> id[i] != ' ' && id[i] != '\n',
    ensures
        spec_head_name(first + seq!['\n'] + id + seq![' ', '\n'] + rest) == spec_head_name(
            first + seq!['\n'] + rest,
        ),
{
    let mid = id + seq![' '];
    let tail = mid + seq!['\n'] + rest;
    assert(first + seq!['\n'] + id + seq![' ', '\n'] + rest =~= first + seq!['\n'] + tail);
    lemma_lines_cons(first, tail);
    lemma_lines_cons(first, rest);
    assert forall|i: int| 0 <= i < mid.len() implies mid[i] != '\n' by {
        if i < id.len() {
            assert(mid[i] == id[i]);
        }
    }
    lemma_lines_cons(mid, rest);
    assert(strip_cr(mid) == mid);
    assert(mid =~= id + seq![' '] + Seq::<char>::empty());
    lemma_split_record(id, Seq::empty());
    let sa = strip_cr(first);
    let big = seq![mid] + lines_of(rest);
    lemma_records_cons(sa, big);
    lemma_records_cons(sa, lines_of(rest));
    lemma_records_cons(mid, lines_of(rest));
    let later = records(lines_of(rest));
    lemma_bookmarks_cons((id, Seq::<char>::empty()), later);
    match split_once_space(sa) {
        Some(r) => {
            let rs1 = seq![r] + records(big);
            let rs2 = seq![r] + later;
            assert(rs1.drop_first() =~= seq![(id, Seq::<char>::empty())] + later);
            assert(rs2.drop_first() =~= later);
            assert(Seq::<Seq<char>>::empty() + nonempty_bookmarks(later) =~= nonempty_bookmarks(later));
        },
        None => {},
    }
}

} // verus!
