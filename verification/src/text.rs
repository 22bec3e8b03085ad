//! Character-sequence utilities shared by the log store and the
//! selection engine: substring search, file-name extraction, splitting
//! and joining on separator characters, and decimal rendering.

use vstd::prelude::*;
use vstd::string::StrSliceExecFns;
use vstd::string::StringExecFns;

verus! {

/// `needle` occurs in `hay` starting at position `i`.
pub open spec fn is_substring_at(hay: Seq<char>, needle: Seq<char>, i: int) -> bool {
    &&& 0 <= i
    &&& i + needle.len() <= hay.len()
    &&& hay.subrange(i, i + needle.len() as int) == needle
}

/// `needle` occurs somewhere in `hay`.
pub open spec fn contains_seq(hay: Seq<char>, needle: Seq<char>) -> bool {
    exists|i: int| is_substring_at(hay, needle, i)
}

/// The empty sequence is a substring of everything.
pub proof fn lemma_contains_empty(hay: Seq<char>)
    ensures
        contains_seq(hay, Seq::<char>::empty()),
{
    assert(hay.subrange(0, 0) =~= Seq::<char>::empty());
    assert(is_substring_at(hay, Seq::<char>::empty(), 0));
}

/// Two string slices hold the same characters.
pub fn str_eq(a: &str, b: &str) -> (r: bool)
    ensures
        r == (a@ == b@),
{
    let alen = a.unicode_len();
    let blen = b.unicode_len();
    if alen != blen {
        return false;
    }
    let mut i: usize = 0;
    while i < alen
        invariant
            i <= alen,
            alen == a@.len(),
            alen == b@.len(),
            forall|k: int| 0 <= k < i ==> a@[k] == b@[k],
        decreases alen - i,
    {
        if a.get_char(i) != b.get_char(i) {
            return false;
        }
        i += 1;
    }
    proof {
        assert(a@ =~= b@);
    }
    true
}

/// `needle` occurs in `hay` at exactly position `i`.
fn match_at(hay: &str, needle: &str, i: usize) -> (r: bool)
    requires
        i + needle@.len() <= hay@.len(),
        hay@.len() <= usize::MAX,
    ensures
        r == is_substring_at(hay@, needle@, i as int),
{
    let nlen = needle.unicode_len();
    let mut j: usize = 0;
    while j < nlen
        invariant
            j <= nlen,
            nlen == needle@.len(),
            i + nlen <= hay@.len(),
            hay@.len() <= usize::MAX,
            forall|k: int| 0 <= k < j ==> hay@[i + k] == needle@[k],
        decreases nlen - j,
    {
        if hay.get_char(i + j) != needle.get_char(j) {
            proof {
                let sub = hay@.subrange(i as int, i + nlen as int);
                assert(sub[j as int] == hay@[i + j]);
                assert(sub != needle@);
            }
            return false;
        }
        j += 1;
    }
    proof {
        assert(hay@.subrange(i as int, i + nlen as int) =~= needle@);
    }
    true
}

/// Substring search: does `hay` contain `needle`?
pub fn str_contains_str(hay: &str, needle: &str) -> (r: bool)
    ensures
        r == contains_seq(hay@, needle@),
{
    let hlen = hay.unicode_len();
    let nlen = needle.unicode_len();
    if nlen > hlen {
        return false;
    }
    if nlen == 0 {
        proof {
            assert(needle@ =~= Seq::<char>::empty());
            lemma_contains_empty(hay@);
        }
        return true;
    }
    let mut i: usize = 0;
    while i <= hlen - nlen
        invariant
            i <= hlen - nlen + 1,
            0 < nlen <= hlen,
            hlen == hay@.len(),
            nlen == needle@.len(),
            forall|k: int| 0 <= k < i ==> !is_substring_at(hay@, needle@, k),
        decreases hlen - nlen - i + 1,
    {
        if match_at(hay, needle, i) {
            return true;
        }
        i += 1;
    }
    false
}

/// The file-name component of a path: the characters after the last `/`,
/// or the whole path when it holds no `/`.
pub open spec fn file_name_of(p: Seq<char>) -> Seq<char>
    decreases p.len(),
{
    if p.len() == 0 {
        Seq::empty()
    } else if p.last() == '/' {
        Seq::empty()
    } else {
        file_name_of(p.drop_last()).push(p.last())
    }
}

proof fn lemma_file_name_after_slash(p: Seq<char>, s: int)
    requires
        0 <= s < p.len(),
        p[s] == '/',
        forall|k: int| s < k < p.len() ==> p[k] != '/',
    ensures
        file_name_of(p) == p.subrange(s + 1, p.len() as int),
    decreases p.len(),
{
    if s == p.len() - 1 {
        assert(file_name_of(p) =~= p.subrange(s + 1, p.len() as int));
    } else {
        let q = p.drop_last();
        assert(forall|k: int| s < k < q.len() ==> q[k] == p[k]);
        lemma_file_name_after_slash(q, s);
        assert(p.subrange(s + 1, p.len() as int) =~= q.subrange(s + 1, q.len() as int).push(
            p.last(),
        ));
    }
}

proof fn lemma_file_name_no_slash(p: Seq<char>)
    requires
        forall|k: int| 0 <= k < p.len() ==> p[k] != '/',
    ensures
        file_name_of(p) == p,
    decreases p.len(),
{
    if p.len() == 0 {
        assert(file_name_of(p) =~= p);
    } else {
        let q = p.drop_last();
        assert(forall|k: int| 0 <= k < q.len() ==> q[k] == p[k]);
        lemma_file_name_no_slash(q);
        assert(q.push(p.last()) =~= p);
    }
}

/// The file-name component of `path`: everything after the last `/`.
pub fn file_name_str<'a>(path: &'a str) -> (r: &'a str)
    ensures
        r@ == file_name_of(path@),
{
    let len = path.unicode_len();
    let mut i: usize = len;
    while i > 0
        invariant
            i <= len,
            len == path@.len(),
            forall|k: int| i <= k < len ==> path@[k] != '/',
        decreases i,
    {
        if path.get_char(i - 1) == '/' {
            let r = path.substring_char(i, len);
            proof {
                lemma_file_name_after_slash(path@, i - 1);
            }
            return r;
        }
        i -= 1;
    }
    proof {
        lemma_file_name_no_slash(path@);
    }
    path
}

/// The segments of `s` between occurrences of `sep`: one more segment
/// than there are separators, in order, separators not included.
pub open spec fn split_on(s: Seq<char>, sep: char) -> Seq<Seq<char>>
    decreases s.len(),
{
    if s.len() == 0 {
        seq![Seq::<char>::empty()]
    } else if s.last() == sep {
        split_on(s.drop_last(), sep).push(Seq::empty())
    } else {
        let rest = split_on(s.drop_last(), sep);
        rest.update(rest.len() - 1, rest.last().push(s.last()))
    }
}

/// The segments joined back, with `sep` between consecutive segments.
pub open spec fn join_with(ls: Seq<Seq<char>>, sep: char) -> Seq<char>
    decreases ls.len(),
{
    if ls.len() == 0 {
        Seq::empty()
    } else if ls.len() == 1 {
        ls[0]
    } else {
        join_with(ls.drop_last(), sep) + seq![sep] + ls.last()
    }
}

/// The lines of a text: segments between `\n` characters, except that a
/// final empty segment after a trailing newline is not a line, and the
/// empty text has no lines.
pub open spec fn split_lines(s: Seq<char>) -> Seq<Seq<char>> {
    if s.len() == 0 {
        Seq::empty()
    } else if s.last() == '\n' {
        split_on(s, '\n').drop_last()
    } else {
        split_on(s, '\n')
    }
}

pub proof fn lemma_split_on_len(s: Seq<char>, sep: char)
    ensures
        split_on(s, sep).len() >= 1,
    decreases s.len(),
{
    if s.len() != 0 {
        lemma_split_on_len(s.drop_last(), sep);
    }
}

/// No segment of a split contains the separator.
pub proof fn lemma_split_on_sep_free(s: Seq<char>, sep: char)
    ensures
        forall|i: int, k: int|
            0 <= i < split_on(s, sep).len() && 0 <= k < split_on(s, sep)[i].len() ==> split_on(
                s,
                sep,
            )[i][k] != sep,
    decreases s.len(),
{
    if s.len() != 0 {
        lemma_split_on_sep_free(s.drop_last(), sep);
        lemma_split_on_len(s.drop_last(), sep);
    }
}

/// A separator-free text splits into the one segment it is.
pub proof fn lemma_split_on_whole(s: Seq<char>, sep: char)
    requires
        forall|k: int| 0 <= k < s.len() ==> s[k] != sep,
    ensures
        split_on(s, sep) == seq![s],
    decreases s.len(),
{
    if s.len() == 0 {
        assert(split_on(s, sep) =~~= seq![s]);
    } else {
        let q = s.drop_last();
        assert(forall|k: int| 0 <= k < q.len() ==> q[k] == s[k]);
        lemma_split_on_whole(q, sep);
        assert(s[s.len() - 1] != sep);
        assert(q.push(s.last()) =~= s);
        assert(split_on(s, sep) =~~= seq![s]);
    }
}

/// Appending a separator and then a separator-free tail appends one segment.
pub proof fn lemma_split_on_append(a: Seq<char>, b: Seq<char>, sep: char)
    requires
        forall|k: int| 0 <= k < b.len() ==> b[k] != sep,
    ensures
        split_on(a + seq![sep] + b, sep) == split_on(a, sep).push(b),
    decreases b.len(),
{
    if b.len() == 0 {
        let s = a + seq![sep] + b;
        assert(s =~= a.push(sep));
        assert(s.drop_last() =~= a);
        assert(split_on(s, sep) =~~= split_on(a, sep).push(b));
    } else {
        let s = a + seq![sep] + b;
        let bq = b.drop_last();
        assert(forall|k: int| 0 <= k < bq.len() ==> bq[k] == b[k]);
        lemma_split_on_append(a, bq, sep);
        assert(s.drop_last() =~= a + seq![sep] + bq);
        assert(b[b.len() - 1] != sep);
        assert(s.last() == b.last());
        assert(s[s.len() - 1] != sep);
        lemma_split_on_len(a, sep);
        let rest = split_on(a, sep).push(bq);
        assert(rest.last().push(b.last()) =~= b);
        assert(split_on(s, sep) =~~= split_on(a, sep).push(b));
    }
}

/// Splitting undoes joining, when no segment contains the separator.
pub proof fn lemma_split_on_join(ls: Seq<Seq<char>>, sep: char)
    requires
        ls.len() >= 1,
        forall|i: int, k: int| 0 <= i < ls.len() && 0 <= k < ls[i].len() ==> ls[i][k] != sep,
    ensures
        split_on(join_with(ls, sep), sep) == ls,
    decreases ls.len(),
{
    if ls.len() == 1 {
        lemma_split_on_whole(ls[0], sep);
        assert(split_on(join_with(ls, sep), sep) =~= ls);
    } else {
        let dl = ls.drop_last();
        assert(forall|i: int, k: int|
            0 <= i < dl.len() && 0 <= k < dl[i].len() ==> dl[i][k] != sep);
        lemma_split_on_join(dl, sep);
        lemma_split_on_append(join_with(dl, sep), ls.last(), sep);
        assert(split_on(join_with(ls, sep), sep) =~= ls);
    }
}

/// A join ends with the last character of its last segment.
pub proof fn lemma_join_last_char(ls: Seq<Seq<char>>, sep: char)
    requires
        ls.len() >= 1,
        ls.last().len() > 0,
    ensures
        join_with(ls, sep).len() > 0,
        join_with(ls, sep).last() == ls.last().last(),
{
}

/// Split a string on a separator character.
pub fn split_str(s: &str, sep: char) -> (r: Vec<String>)
    ensures
        r@.map_values(|t: String| t@) == split_on(s@, sep),
{
    let len = s.unicode_len();
    let mut parts: Vec<String> = Vec::new();
    let mut start: usize = 0;
    let mut i: usize = 0;
    proof {
        assert(parts@.map_values(|t: String| t@).push(s@.subrange(0, 0)) =~~= split_on(
            s@.subrange(0, 0),
            sep,
        ));
    }
    while i < len
        invariant
            start <= i <= len,
            len == s@.len(),
            parts@.map_values(|t: String| t@).push(s@.subrange(start as int, i as int))
                =~= split_on(s@.subrange(0, i as int), sep),
        decreases len - i,
    {
        let c = s.get_char(i);
        proof {
            assert(s@.subrange(0, i + 1).drop_last() =~= s@.subrange(0, i as int));
            assert(s@.subrange(0, i + 1).last() == s@[i as int]);
        }
        if c == sep {
            let piece = String::from_str(s.substring_char(start, i));
            let ghost old_parts = parts@;
            parts.push(piece);
            proof {
                assert(parts@.map_values(|t: String| t@) =~= old_parts.map_values(
                    |t: String| t@,
                ).push(s@.subrange(start as int, i as int)));
                assert(parts@.map_values(|t: String| t@).push(s@.subrange(i + 1, i + 1)) =~~=
                split_on(s@.subrange(0, i + 1), sep));
            }
            start = i + 1;
        } else {
            proof {
                let prev = split_on(s@.subrange(0, i as int), sep);
                assert(prev.last() == s@.subrange(start as int, i as int));
                assert(s@.subrange(start as int, i as int).push(s@[i as int]) =~= s@.subrange(
                    start as int,
                    i + 1,
                ));
                assert(parts@.map_values(|t: String| t@).push(s@.subrange(start as int, i + 1))
                    =~= split_on(s@.subrange(0, i + 1), sep));
            }
        }
        i += 1;
    }
    let piece = String::from_str(s.substring_char(start, len));
    let ghost old_parts = parts@;
    parts.push(piece);
    proof {
        assert(s@.subrange(0, len as int) =~= s@);
        assert(parts@.map_values(|t: String| t@) =~= old_parts.map_values(|t: String| t@).push(
            s@.subrange(start as int, len as int),
        ));
    }
    parts
}

/// Split a text into its lines.
pub fn split_lines_str(s: &str) -> (r: Vec<String>)
    ensures
        r@.map_values(|t: String| t@) == split_lines(s@),
{
    let len = s.unicode_len();
    if len == 0 {
        let r: Vec<String> = Vec::new();
        proof {
            assert(r@.map_values(|t: String| t@) =~= split_lines(s@));
        }
        return r;
    }
    let mut parts = split_str(s, '\n');
    if s.get_char(len - 1) == '\n' {
        proof {
            lemma_split_on_len(s@, '\n');
            assert(parts@.len() == split_on(s@, '\n').len());
        }
        let ghost old_parts = parts@;
        parts.pop();
        proof {
            assert(parts@.map_values(|t: String| t@) =~= old_parts.map_values(
                |t: String| t@,
            ).drop_last());
        }
    }
    parts
}

/// What `str::to_lowercase` returns: a function of the characters alone.
pub uninterp spec fn lower_of(s: Seq<char>) -> Seq<char>;

/// Relies on `str::to_lowercase`: the result depends only on the characters
/// of the input, and the lowercase form of the empty string is empty.
#[verifier::external_body]
pub(crate) fn lowercase(s: &str) -> (r: String)
    ensures
        r@ == lower_of(s@),
        s@.len() == 0 ==> r@.len() == 0,
{
    s.to_lowercase()
}

/// The digit character for `d`.
pub open spec fn digit_char(d: int) -> char {
    if d == 0 {
        '0'
    } else if d == 1 {
        '1'
    } else if d == 2 {
        '2'
    } else if d == 3 {
        '3'
    } else if d == 4 {
        '4'
    } else if d == 5 {
        '5'
    } else if d == 6 {
        '6'
    } else if d == 7 {
        '7'
    } else if d == 8 {
        '8'
    } else {
        '9'
    }
}

/// The decimal rendering of `n`, without a sign and without leading zeros
/// (a single `0` for zero).
pub open spec fn dec_str(n: nat) -> Seq<char>
    decreases n,
{
    if n < 10 {
        seq![digit_char(n as int)]
    } else {
        dec_str(n / 10).push(digit_char((n % 10) as int))
    }
}

pub(crate) fn digit_str(d: u64) -> (r: &'static str)
    requires
        d < 10,
    ensures
        r@ == seq![digit_char(d as int)],
{
    if d == 0 {
        proof {
            reveal_strlit("0");
        }
        assert("0"@ =~= seq![digit_char(0)]);
        "0"
    } else if d == 1 {
        proof {
            reveal_strlit("1");
        }
        assert("1"@ =~= seq![digit_char(1)]);
        "1"
    } else if d == 2 {
        proof {
            reveal_strlit("2");
        }
        assert("2"@ =~= seq![digit_char(2)]);
        "2"
    } else if d == 3 {
        proof {
            reveal_strlit("3");
        }
        assert("3"@ =~= seq![digit_char(3)]);
        "3"
    } else if d == 4 {
        proof {
            reveal_strlit("4");
        }
        assert("4"@ =~= seq![digit_char(4)]);
        "4"
    } else if d == 5 {
        proof {
            reveal_strlit("5");
        }
        assert("5"@ =~= seq![digit_char(5)]);
        "5"
    } else if d == 6 {
        proof {
            reveal_strlit("6");
        }
        assert("6"@ =~= seq![digit_char(6)]);
        "6"
    } else if d == 7 {
        proof {
            reveal_strlit("7");
        }
        assert("7"@ =~= seq![digit_char(7)]);
        "7"
    } else if d == 8 {
        proof {
            reveal_strlit("8");
        }
        assert("8"@ =~= seq![digit_char(8)]);
        "8"
    } else {
        proof {
            reveal_strlit("9");
        }
        assert("9"@ =~= seq![digit_char(9)]);
        "9"
    }
}

/// Render `n` in decimal.
pub fn u64_dec_str(n: u64) -> (r: String)
    ensures
        r@ == dec_str(n as nat),
    decreases n,
{
    if n < 10 {
        String::from_str(digit_str(n))
    } else {
        let mut r = u64_dec_str(n / 10);
        r.append(digit_str(n % 10));
        proof {
            assert(dec_str((n / 10) as nat).push(digit_char((n % 10) as int)) =~= dec_str(
                (n / 10) as nat,
            ) + seq![digit_char((n % 10) as int)]);
        }
        r
    }
}

} // verus!
