//! Plain-text utilities shared by the renderer and the checker: whitespace
//! trimming, substring search, line splitting, substring replacement and
//! string assembly, each specified over sequences of characters.

use vstd::prelude::*;

verus! {

/// Whether `c` has the Unicode `White_Space` property, the classification
/// `char::is_whitespace` uses.
pub open spec fn is_ws(c: char) -> bool {
    c == ' ' || c == '\t' || c == '\n' || c == '\r' || c == '\x0b' || c == '\x0c'
        || c == '\u{85}' || c == '\u{a0}' || c == '\u{1680}' || ('\u{2000}' <= c
        && c <= '\u{200a}') || c == '\u{2028}' || c == '\u{2029}' || c == '\u{202f}'
        || c == '\u{205f}' || c == '\u{3000}'
}

/// Whether `c` is whitespace, matching `is_ws`.
pub fn ws_char(c: char) -> (r: bool)
    ensures
        r == is_ws(c),
{
    c == ' ' || c == '\t' || c == '\n' || c == '\r' || c == '\x0b' || c == '\x0c'
        || c == '\u{85}' || c == '\u{a0}' || c == '\u{1680}' || ('\u{2000}' <= c
        && c <= '\u{200a}') || c == '\u{2028}' || c == '\u{2029}' || c == '\u{202f}'
        || c == '\u{205f}' || c == '\u{3000}'
}

/// `s` with leading and trailing whitespace removed.
pub open spec fn trimmed(s: Seq<char>) -> Seq<char>
    decreases s.len(),
{
    if s.len() == 0 {
        s
    } else if is_ws(s[0]) {
        trimmed(s.drop_first())
    } else if is_ws(s.last()) {
        trimmed(s.drop_last())
    } else {
        s
    }
}

/// `trimmed` equals the subrange that cuts a fully-whitespace prefix and
/// suffix off, provided the cut stops at non-whitespace characters.
proof fn lemma_trimmed_range(s: Seq<char>, i: int, j: int)
    requires
        0 <= i <= j <= s.len(),
        forall|k: int| 0 <= k < i ==> is_ws(s[k]),
        forall|k: int| j <= k < s.len() ==> is_ws(s[k]),
        i < j ==> !is_ws(s[i]) && !is_ws(s[j - 1]),
    ensures
        trimmed(s) == s.subrange(i, j),
    decreases s.len(),
{
    if s.len() == 0 {
        assert(trimmed(s) == s.subrange(i, j));
    } else if is_ws(s[0]) {
        assert(i == j || !is_ws(s[i]));
        assert(i > 0 || i == j);
        if i == j {
            if i == 0 {
                lemma_trimmed_range(s.drop_first(), 0, 0);
                assert(s.subrange(0, 0) =~= s.drop_first().subrange(0, 0));
            } else {
                lemma_trimmed_range(s.drop_first(), i - 1, j - 1);
                assert(s.subrange(i, j) =~= s.drop_first().subrange(i - 1, j - 1));
            }
        } else {
            lemma_trimmed_range(s.drop_first(), i - 1, j - 1);
            assert(s.subrange(i, j) =~= s.drop_first().subrange(i - 1, j - 1));
        }
    } else if is_ws(s.last()) {
        assert(i == j || !is_ws(s[j - 1]));
        assert(j < s.len() || i == j);
        if i == j {
            if j == s.len() {
                assert(i == s.len());
                assert(!is_ws(s[0]));
                assert(false);
            } else {
                lemma_trimmed_range(s.drop_last(), i, j);
                assert(s.subrange(i, j) =~= s.drop_last().subrange(i, j));
            }
        } else {
            lemma_trimmed_range(s.drop_last(), i, j);
            assert(s.subrange(i, j) =~= s.drop_last().subrange(i, j));
        }
    } else {
        assert(i == 0);
        assert(j == s.len());
        assert(trimmed(s) == s);
        assert(s.subrange(0, s.len() as int) =~= s);
    }
}

/// `s.trim()`: `s` without leading and trailing whitespace.
pub fn trim_str<'a>(s: &'a str) -> (r: &'a str)
    ensures
        r@ == trimmed(s@),
{
    let n = s.unicode_len();
    let mut i: usize = 0;
    while i < n && ws_char(s.get_char(i))
        invariant
            0 <= i <= n,
            n == s@.len(),
            forall|k: int| 0 <= k < i ==> is_ws(s@[k]),
        decreases n - i,
    {
        i = i + 1;
    }
    let mut j: usize = n;
    while j > i && ws_char(s.get_char(j - 1))
        invariant
            i <= j <= n,
            n == s@.len(),
            forall|k: int| j <= k < n ==> is_ws(s@[k]),
        decreases j,
    {
        j = j - 1;
    }
    proof {
        lemma_trimmed_range(s@, i as int, j as int);
    }
    s.substring_char(i, j)
}

/// `pat` occurs in `text` starting at position `i`.
pub open spec fn match_at(text: Seq<char>, pat: Seq<char>, i: int) -> bool {
    &&& 0 <= i
    &&& i + pat.len() <= text.len()
    &&& text.subrange(i, i + pat.len()) == pat
}

/// `pat` occurs somewhere in `text`.
pub open spec fn has_match(text: Seq<char>, pat: Seq<char>) -> bool {
    exists|i: int| match_at(text, pat, i)
}

/// Whether `pat` occurs in `text` at position `i`.
fn match_at_exec(text: &str, pat: &str, i: usize) -> (r: bool)
    requires
        i + pat@.len() <= text@.len(),
        text@.len() <= usize::MAX,
    ensures
        r == match_at(text@, pat@, i as int),
{
    let plen = pat.unicode_len();
    let mut k: usize = 0;
    while k < plen
        invariant
            0 <= k <= plen,
            plen == pat@.len(),
            i + plen <= text@.len(),
            text@.len() <= usize::MAX,
            forall|m: int| 0 <= m < k ==> text@[i + m] == pat@[m],
        decreases plen - k,
    {
        if text.get_char(i + k) != pat.get_char(k) {
            assert(text@.subrange(i as int, i + plen) != pat@) by {
                assert(text@.subrange(i as int, i + plen)[k as int] != pat@[k as int]);
            }
            return false;
        }
        k = k + 1;
    }
    assert(text@.subrange(i as int, i + plen) =~= pat@);
    true
}

/// `text.contains(pat)`: whether `pat` occurs anywhere in `text`.
pub fn contains_str(text: &str, pat: &str) -> (r: bool)
    ensures
        r == has_match(text@, pat@),
{
    let tlen = text.unicode_len();
    let plen = pat.unicode_len();
    if plen > tlen {
        assert(!has_match(text@, pat@));
        return false;
    }
    if plen == 0 {
        assert(text@.subrange(0, 0) =~= pat@);
        assert(match_at(text@, pat@, 0));
        return true;
    }
    let mut i: usize = 0;
    while i <= tlen - plen
        invariant
            0 <= i <= tlen - plen + 1,
            1 <= plen <= tlen,
            tlen == text@.len(),
            plen == pat@.len(),
            forall|m: int| 0 <= m < i ==> !match_at(text@, pat@, m),
        decreases tlen - plen - i + 1,
    {
        if match_at_exec(text, pat, i) {
            assert(has_match(text@, pat@));
            return true;
        }
        i = i + 1;
    }
    assert(forall|m: int| match_at(text@, pat@, m) ==> 0 <= m <= tlen - plen);
    false
}

/// The sequence of `n` copies of `c`.
pub open spec fn char_repeat(c: char, n: nat) -> Seq<char> {
    Seq::new(n, |i: int| c)
}

/// Appends one character to `s`. Relies on `String::push`, which appends
/// the given character to the end of the string.
#[verifier::external_body]
pub fn push_char(s: &mut String, c: char)
    ensures
        final(s)@ == old(s)@.push(c),
{
    s.push(c);
}

/// Appends `n` copies of `c` to `s`.
pub fn push_repeat(s: &mut String, c: char, n: usize)
    ensures
        final(s)@ == old(s)@ + char_repeat(c, n as nat),
{
    let mut k: usize = 0;
    while k < n
        invariant
            0 <= k <= n,
            s@ == old(s)@ + char_repeat(c, k as nat),
        decreases n - k,
    {
        push_char(s, c);
        assert(old(s)@ + char_repeat(c, (k + 1) as nat) =~= (old(s)@ + char_repeat(
            c,
            k as nat,
        )).push(c));
        k = k + 1;
    }
}

/// The views of a sequence of strings.
pub open spec fn strs_view(v: Seq<String>) -> Seq<Seq<char>> {
    v.map_values(|s: String| s@)
}

/// The lines joined by single newline characters.
pub open spec fn join_nl(lines: Seq<Seq<char>>) -> Seq<char>
    decreases lines.len(),
{
    if lines.len() == 0 {
        Seq::empty()
    } else if lines.len() == 1 {
        lines[0]
    } else {
        lines[0] + seq!['\n'] + join_nl(lines.drop_first())
    }
}

/// `lines.join("\n")`.
pub fn join_lines(lines: &Vec<String>) -> (r: String)
    ensures
        r@ == join_nl(strs_view(lines@)),
{
    let ghost s = strs_view(lines@);
    let mut out = String::new();
    if lines.len() == 0 {
        return out;
    }
    out.append(lines[0].as_str());
    assert(s.take(1) =~= seq![s[0]]);
    let mut i: usize = 1;
    while i < lines.len()
        invariant
            1 <= i <= s.len(),
            s == strs_view(lines@),
            s.len() == lines@.len(),
            out@ == join_nl(s.take(i as int)),
        decreases s.len() - i,
    {
        proof {
            lemma_join_nl_snoc(s, i as int);
        }
        push_char(&mut out, '\n');
        out.append(lines[i].as_str());
        assert(out@ =~= join_nl(s.take(i as int)) + seq!['\n'] + s[i as int]);
        i = i + 1;
    }
    assert(s.take(s.len() as int) =~= s);
    out
}

/// `text` with every occurrence of `pat` replaced by `repl`, scanning left to
/// right without overlap, as `str::replace` does.
pub open spec fn replaced(text: Seq<char>, pat: Seq<char>, repl: Seq<char>) -> Seq<char>
    decreases text.len(),
{
    if pat.len() == 0 || text.len() < pat.len() {
        text
    } else if text.take(pat.len() as int) == pat {
        repl + replaced(text.skip(pat.len() as int), pat, repl)
    } else {
        seq![text[0]] + replaced(text.drop_first(), pat, repl)
    }
}

/// `text.replace(pat, repl)`.
pub fn replace_all(text: &str, pat: &str, repl: &str) -> (r: String)
    requires
        pat@.len() > 0,
    ensures
        r@ == replaced(text@, pat@, repl@),
{
    let tlen = text.unicode_len();
    let plen = pat.unicode_len();
    let mut out = String::new();
    let mut i: usize = 0;
    proof {
        assert(text@.skip(0) =~= text@);
        assert(out@ + replaced(text@, pat@, repl@) =~= replaced(text@, pat@, repl@));
    }
    while tlen - i >= plen
        invariant
            0 <= i <= tlen,
            1 <= plen == pat@.len(),
            tlen == text@.len(),
            replaced(text@, pat@, repl@) == out@ + replaced(text@.skip(i as int), pat@, repl@),
        decreases tlen - i,
    {
        let ghost rest = text@.skip(i as int);
        let ghost out0 = out@;
        if match_at_exec(text, pat, i) {
            out.append(repl);
            proof {
                assert(rest.take(plen as int) =~= text@.subrange(i as int, i + plen));
                assert(rest.skip(plen as int) =~= text@.skip(i + plen));
                assert(replaced(rest, pat@, repl@) == repl@ + replaced(
                    text@.skip(i + plen),
                    pat@,
                    repl@,
                ));
                assert(out0 + (repl@ + replaced(text@.skip(i + plen), pat@, repl@)) =~= out@
                    + replaced(text@.skip(i + plen), pat@, repl@));
            }
            i = i + plen;
        } else {
            let c = text.get_char(i);
            push_char(&mut out, c);
            proof {
                assert(rest.take(plen as int) =~= text@.subrange(i as int, i + plen));
                assert(rest.take(plen as int) != pat@);
                assert(rest.drop_first() =~= text@.skip(i + 1));
                assert(rest[0] == c);
                assert(replaced(rest, pat@, repl@) == seq![c] + replaced(
                    text@.skip(i + 1),
                    pat@,
                    repl@,
                ));
                assert(out0 + (seq![c] + replaced(text@.skip(i + 1), pat@, repl@)) =~= out@
                    + replaced(text@.skip(i + 1), pat@, repl@));
            }
            i = i + 1;
        }
    }
    let tail = text.substring_char(i, tlen);
    out.append(tail);
    proof {
        assert(text@.skip(i as int) =~= text@.subrange(i as int, tlen as int));
        assert(replaced(text@.skip(i as int), pat@, repl@) == text@.skip(i as int));
    }
    out
}

/// The normative keywords, in replacement order: longer phrases stand
/// before their shorter substrings so one pass never wraps part of an
/// already-replaced phrase again.
pub open spec fn keyword(k: int) -> Seq<char> {
    if k == 0 {
        "must not"@
    } else if k == 1 {
        "must"@
    } else if k == 2 {
        "required"@
    } else if k == 3 {
        "shall not"@
    } else if k == 4 {
        "shall"@
    } else if k == 5 {
        "should not"@
    } else if k == 6 {
        "should"@
    } else if k == 7 {
        "recommended"@
    } else if k == 8 {
        "may"@
    } else {
        "optional"@
    }
}

/// What replaces each keyword: its upper-cased form in strong and italic
/// emphasis markers.
pub open spec fn emph_mark(k: int) -> Seq<char> {
    if k == 0 {
        "**_MUST NOT_**"@
    } else if k == 1 {
        "**_MUST_**"@
    } else if k == 2 {
        "**_REQUIRED_**"@
    } else if k == 3 {
        "**_SHALL NOT_**"@
    } else if k == 4 {
        "**_SHALL_**"@
    } else if k == 5 {
        "**_SHOULD NOT_**"@
    } else if k == 6 {
        "**_SHOULD_**"@
    } else if k == 7 {
        "**_RECOMMENDED_**"@
    } else if k == 8 {
        "**_MAY_**"@
    } else {
        "**_OPTIONAL_**"@
    }
}

/// `t` after the emphasis passes for the keywords from `k` on.
pub open spec fn emph_from(t: Seq<char>, k: int) -> Seq<char>
    decreases 10 - k,
{
    if 0 <= k < 10 {
        emph_from(replaced(t, keyword(k), emph_mark(k)), k + 1)
    } else {
        t
    }
}

/// `t` after the whole keyword-emphasis pass, one keyword at a time in the
/// fixed order.
pub open spec fn emphasized(t: Seq<char>) -> Seq<char> {
    emph_from(t, 0)
}

/// Applies the keyword-emphasis pass to `text`.
pub fn emphasize(text: &str) -> (r: String)
    ensures
        r@ == emphasized(text@),
{
    proof {
        reveal_strlit("must not");
        reveal_strlit("must");
        reveal_strlit("required");
        reveal_strlit("shall not");
        reveal_strlit("shall");
        reveal_strlit("should not");
        reveal_strlit("should");
        reveal_strlit("recommended");
        reveal_strlit("may");
        reveal_strlit("optional");
    }
    let t0 = replace_all(text, "must not", "**_MUST NOT_**");
    let t1 = replace_all(t0.as_str(), "must", "**_MUST_**");
    let t2 = replace_all(t1.as_str(), "required", "**_REQUIRED_**");
    let t3 = replace_all(t2.as_str(), "shall not", "**_SHALL NOT_**");
    let t4 = replace_all(t3.as_str(), "shall", "**_SHALL_**");
    let t5 = replace_all(t4.as_str(), "should not", "**_SHOULD NOT_**");
    let t6 = replace_all(t5.as_str(), "should", "**_SHOULD_**");
    let t7 = replace_all(t6.as_str(), "recommended", "**_RECOMMENDED_**");
    let t8 = replace_all(t7.as_str(), "may", "**_MAY_**");
    let t9 = replace_all(t8.as_str(), "optional", "**_OPTIONAL_**");
    assert(emph_from(text@, 0) == emph_from(t0@, 1));
    assert(emph_from(t0@, 1) == emph_from(t1@, 2));
    assert(emph_from(t1@, 2) == emph_from(t2@, 3));
    assert(emph_from(t2@, 3) == emph_from(t3@, 4));
    assert(emph_from(t3@, 4) == emph_from(t4@, 5));
    assert(emph_from(t4@, 5) == emph_from(t5@, 6));
    assert(emph_from(t5@, 6) == emph_from(t6@, 7));
    assert(emph_from(t6@, 7) == emph_from(t7@, 8));
    assert(emph_from(t7@, 8) == emph_from(t8@, 9));
    assert(emph_from(t8@, 9) == emph_from(t9@, 10));
    t9
}

/// Replacing a pattern that does not occur changes nothing.
proof fn lemma_replaced_noop(t: Seq<char>, p: Seq<char>, r: Seq<char>)
    requires
        p.len() > 0,
        !has_match(t, p),
    ensures
        replaced(t, p, r) == t,
    decreases t.len(),
{
    if t.len() < p.len() {
    } else {
        if t.take(p.len() as int) == p {
            assert(t.take(p.len() as int) =~= t.subrange(0, p.len() as int));
            assert(match_at(t, p, 0));
            assert(false);
        }
        assert forall|i: int| !match_at(t.drop_first(), p, i) by {
            if match_at(t.drop_first(), p, i) {
                assert(t.drop_first().subrange(i, i + p.len()) =~= t.subrange(
                    i + 1,
                    i + 1 + p.len(),
                ));
                assert(match_at(t, p, i + 1));
            }
        }
        lemma_replaced_noop(t.drop_first(), p, r);
        assert(seq![t[0]] + t.drop_first() =~= t);
    }
}

/// After a replacement pass, the search text `q` occurs nowhere, provided
/// `q` has no character equal to the replacement's first character, the
/// replacement has no character equal to `q`'s first character, and `q` is
/// the pattern itself or did not occur before. Moreover any suffix of `q`
/// standing at the front of the result stood at the front of the input.
proof fn lemma_replaced_free(t: Seq<char>, p: Seq<char>, r: Seq<char>, q: Seq<char>)
    requires
        p.len() > 0,
        r.len() > 0,
        q.len() > 0,
        forall|k: int| 0 <= k < q.len() ==> q[k] != r[0],
        forall|k: int| 0 <= k < r.len() ==> r[k] != q[0],
        q == p || !has_match(t, q),
    ensures
        !has_match(replaced(t, p, r), q),
        forall|j: int|
            1 <= j < q.len() && starts_with(replaced(t, p, r), #[trigger] q.skip(j))
                ==> starts_with(t, q.skip(j)),
    decreases t.len(),
{
    let out = replaced(t, p, r);
    if t.len() < p.len() {
        assert(out == t);
        if q == p {
            assert forall|i: int| !match_at(out, q, i) by {}
        }
    } else if t.take(p.len() as int) == p {
        let rest = t.skip(p.len() as int);
        let out2 = replaced(rest, p, r);
        assert(out == r + out2);
        if q != p {
            assert forall|i: int| !match_at(rest, q, i) by {
                if match_at(rest, q, i) {
                    assert(rest.subrange(i, i + q.len()) =~= t.subrange(
                        i + p.len(),
                        i + p.len() + q.len(),
                    ));
                    assert(match_at(t, q, i + p.len()));
                }
            }
        }
        lemma_replaced_free(rest, p, r, q);
        assert forall|i: int| !match_at(out, q, i) by {
            if match_at(out, q, i) {
                if i >= r.len() {
                    assert(out.subrange(i, i + q.len()) =~= out2.subrange(
                        i - r.len(),
                        i - r.len() + q.len(),
                    ));
                    assert(match_at(out2, q, i - r.len()));
                } else {
                    assert(out.subrange(i, i + q.len())[0] == out[i]);
                    assert(out[i] == r[i]);
                    assert(q[0] == r[i]);
                }
            }
        }
        assert forall|j: int|
            1 <= j < q.len() && starts_with(out, #[trigger] q.skip(j)) implies starts_with(
            t,
            q.skip(j),
        ) by {
            assert(out[0] == r[0]);
            assert(out.take(q.len() - j)[0] == out[0]);
            assert(q.skip(j)[0] == q[j]);
        }
    } else {
        let rest = t.drop_first();
        let out2 = replaced(rest, p, r);
        assert(out == seq![t[0]] + out2);
        if q != p {
            assert forall|i: int| !match_at(rest, q, i) by {
                if match_at(rest, q, i) {
                    assert(rest.subrange(i, i + q.len()) =~= t.subrange(i + 1, i + 1 + q.len()));
                    assert(match_at(t, q, i + 1));
                }
            }
        }
        lemma_replaced_free(rest, p, r, q);
        assert forall|i: int| !match_at(out, q, i) by {
            if match_at(out, q, i) {
                if i >= 1 {
                    assert(out.subrange(i, i + q.len()) =~= out2.subrange(
                        i - 1,
                        i - 1 + q.len(),
                    ));
                    assert(match_at(out2, q, i - 1));
                } else {
                    assert(out.subrange(0, q.len() as int)[0] == q[0]);
                    assert(q[0] == t[0]);
                    if q.len() == 1 {
                        if q == p {
                            assert(t.take(p.len() as int) =~= q);
                            assert(false);
                        } else {
                            assert(t.subrange(0, 1) =~= q);
                            assert(match_at(t, q, 0));
                        }
                    } else {
                        assert(starts_with(out, q)) by {
                            assert(out.take(q.len() as int) =~= out.subrange(0, q.len() as int));
                        }
                        assert(starts_with(out2, q.skip(1))) by {
                            assert(out2.take(q.len() - 1) =~= out.subrange(1, q.len() as int));
                            assert(out.subrange(1, q.len() as int) =~= q.skip(1));
                        }
                        assert(starts_with(rest, q.skip(1)));
                        assert(t.take(q.len() as int) =~= q) by {
                            assert(rest.take(q.len() - 1) == q.skip(1));
                            assert(t.len() >= q.len());
                            assert forall|x: int| 1 <= x < q.len() implies t[x] == q[x] by {
                                assert(t[x] == rest[x - 1]);
                                assert(rest[x - 1] == rest.take(q.len() - 1)[x - 1]);
                                assert(q.skip(1)[x - 1] == q[x]);
                            }
                        }
                        if q == p {
                            assert(false);
                        } else {
                            assert(t.take(q.len() as int) =~= t.subrange(0, q.len() as int));
                            assert(match_at(t, q, 0));
                        }
                    }
                }
            }
        }
        assert forall|j: int|
            1 <= j < q.len() && starts_with(out, #[trigger] q.skip(j)) implies starts_with(
            t,
            q.skip(j),
        ) by {
            assert(out.take(q.len() - j)[0] == out[0]);
            assert(q.skip(j)[0] == q[j]);
            assert(t[0] == q[j]);
            if q.len() - j == 1 {
                assert(t.take(1) =~= q.skip(j));
            } else {
                assert(starts_with(out2, q.skip(j + 1))) by {
                    assert(out2.take(q.len() - j - 1) =~= out.take(q.len() - j).skip(1));
                    assert(out.take(q.len() - j).skip(1) =~= q.skip(j).skip(1));
                    assert(q.skip(j).skip(1) =~= q.skip(j + 1));
                }
                assert(starts_with(rest, q.skip(j + 1)));
                assert(t.take(q.len() - j) =~= q.skip(j)) by {
                    assert(rest.take(q.len() - j - 1) == q.skip(j + 1));
                    assert(t.len() >= q.len() - j);
                    assert forall|x: int| 1 <= x < q.len() - j implies t[x] == q.skip(j)[x] by {
                        assert(t[x] == rest[x - 1]);
                        assert(rest[x - 1] == rest.take(q.len() - j - 1)[x - 1]);
                        assert(q.skip(j + 1)[x - 1] == q[j + x]);
                        assert(q.skip(j)[x] == q[j + x]);
                    }
                }
            }
        }
    }
}

/// The character facts the idempotence proof rests on: keywords are
/// non-empty and hold no emphasis marker, every replacement begins with the
/// marker, and no replacement holds any keyword's first character.
#[verifier::rlimit(100)]
proof fn lemma_keyword_facts()
    ensures
        forall|k: int| 0 <= k < 10 ==> (#[trigger] keyword(k)).len() > 0,
        forall|k: int| 0 <= k < 10 ==> (#[trigger] emph_mark(k)).len() > 0,
        forall|k: int, j: int|
            0 <= k < 10 && 0 <= j < keyword(k).len() ==> #[trigger] keyword(k)[j] != '*',
        forall|k: int| 0 <= k < 10 ==> (#[trigger] emph_mark(k))[0] == '*',
        forall|k: int, m: int, j: int|
            0 <= k < 10 && 0 <= m < 10 && 0 <= j < emph_mark(m).len() ==> #[trigger] emph_mark(
                m,
            )[j] != #[trigger] keyword(k)[0],
{
    reveal_strlit("must not");
    reveal_strlit("must");
    reveal_strlit("required");
    reveal_strlit("shall not");
    reveal_strlit("shall");
    reveal_strlit("should not");
    reveal_strlit("should");
    reveal_strlit("recommended");
    reveal_strlit("may");
    reveal_strlit("optional");
    reveal_strlit("**_MUST NOT_**");
    reveal_strlit("**_MUST_**");
    reveal_strlit("**_REQUIRED_**");
    reveal_strlit("**_SHALL NOT_**");
    reveal_strlit("**_SHALL_**");
    reveal_strlit("**_SHOULD NOT_**");
    reveal_strlit("**_SHOULD_**");
    reveal_strlit("**_RECOMMENDED_**");
    reveal_strlit("**_MAY_**");
    reveal_strlit("**_OPTIONAL_**");
}

/// The emphasis passes from `k` on keep a keyword absent once it is absent.
proof fn lemma_emph_from_preserves(t: Seq<char>, k: int, q: int)
    requires
        0 <= q < 10,
        0 <= k,
        !has_match(t, keyword(q)),
    ensures
        !has_match(emph_from(t, k), keyword(q)),
    decreases 10 - k,
{
    if k < 10 {
        lemma_keyword_facts();
        lemma_replaced_free(t, keyword(k), emph_mark(k), keyword(q));
        lemma_emph_from_preserves(replaced(t, keyword(k), emph_mark(k)), k + 1, q);
    }
}

/// After the emphasis passes from `k` on, keyword `q` (for `q >= k`) occurs
/// nowhere: its own pass removed it and the later passes cannot write it
/// back.
proof fn lemma_emph_from_kills(t: Seq<char>, k: int, q: int)
    requires
        0 <= k <= q < 10,
    ensures
        !has_match(emph_from(t, k), keyword(q)),
    decreases 10 - k,
{
    lemma_keyword_facts();
    let t2 = replaced(t, keyword(k), emph_mark(k));
    if k == q {
        lemma_replaced_free(t, keyword(k), emph_mark(k), keyword(k));
        lemma_emph_from_preserves(t2, k + 1, q);
    } else {
        lemma_emph_from_kills(t2, k + 1, q);
    }
}

/// The emphasis passes change nothing in a text that holds no keyword.
proof fn lemma_emph_from_id(t: Seq<char>, k: int)
    requires
        forall|q: int| 0 <= q < 10 ==> !has_match(t, #[trigger] keyword(q)),
    ensures
        emph_from(t, k) == t,
    decreases 10 - k,
{
    if 0 <= k < 10 {
        lemma_keyword_facts();
        lemma_replaced_noop(t, keyword(k), emph_mark(k));
        lemma_emph_from_id(t, k + 1);
    }
}

/// The keyword-emphasis pass is idempotent: its output holds no keyword in
/// lower case any more, so applying the pass again — with the same
/// replacement list in the same order — wraps nothing twice and returns its
/// input unchanged.
pub proof fn lemma_emphasized_idempotent(t: Seq<char>)
    ensures
        emphasized(emphasized(t)) == emphasized(t),
{
    let e = emphasized(t);
    assert forall|q: int| 0 <= q < 10 implies !has_match(e, #[trigger] keyword(q)) by {
        lemma_emph_from_kills(t, 0, q);
    }
    lemma_emph_from_id(e, 0);
}

/// The position of the first newline in `s`, or `s.len()` if there is none.
pub open spec fn first_nl(s: Seq<char>) -> int
    decreases s.len(),
{
    if s.len() == 0 {
        0
    } else if s[0] == '\n' {
        0
    } else {
        1 + first_nl(s.drop_first())
    }
}

/// `first_nl` is the unique position with no newline before it that is
/// either a newline or the end.
proof fn lemma_first_nl_at(s: Seq<char>, i: int)
    requires
        0 <= i <= s.len(),
        forall|k: int| 0 <= k < i ==> s[k] != '\n',
        i < s.len() ==> s[i] == '\n',
    ensures
        first_nl(s) == i,
    decreases s.len(),
{
    if s.len() == 0 {
    } else if s[0] == '\n' {
        assert(i == 0);
    } else {
        assert(i >= 1);
        lemma_first_nl_at(s.drop_first(), i - 1);
    }
}

/// The position of the first occurrence of `c` in `s`, or `s.len()` if
/// there is none.
pub open spec fn first_pos(s: Seq<char>, c: char) -> int
    decreases s.len(),
{
    if s.len() == 0 {
        0
    } else if s[0] == c {
        0
    } else {
        1 + first_pos(s.drop_first(), c)
    }
}

/// `first_pos` is the unique position with no `c` before it that is either
/// a `c` or the end.
pub proof fn lemma_first_pos_at(s: Seq<char>, c: char, i: int)
    requires
        0 <= i <= s.len(),
        forall|k: int| 0 <= k < i ==> s[k] != c,
        i < s.len() ==> s[i] == c,
    ensures
        first_pos(s, c) == i,
    decreases s.len(),
{
    if s.len() == 0 {
    } else if s[0] == c {
        assert(i == 0);
    } else {
        assert(i >= 1);
        lemma_first_pos_at(s.drop_first(), c, i - 1);
    }
}

/// The parts of `s` between occurrences of `c`, as `str::split` yields
/// them: one part more than there are separators, parts possibly empty.
pub open spec fn split_char(s: Seq<char>, c: char) -> Seq<Seq<char>>
    decreases s.len(),
{
    let i = first_pos(s, c);
    if 0 <= i < s.len() {
        seq![s.take(i)] + split_char(s.skip(i + 1), c)
    } else {
        seq![s]
    }
}

/// A split has at least one part.
pub proof fn lemma_split_char_len(s: Seq<char>, c: char)
    ensures
        split_char(s, c).len() >= 1,
    decreases s.len(),
{
    let i = first_pos(s, c);
    if 0 <= i < s.len() {
        lemma_split_char_len(s.skip(i + 1), c);
    }
}

/// A line's content: the segment without one carriage return at its end.
pub open spec fn strip_cr(l: Seq<char>) -> Seq<char> {
    if l.len() > 0 && l.last() == '\r' {
        l.drop_last()
    } else {
        l
    }
}

/// The lines of `s`, as `str::lines` yields them: split at `'\n'`, one
/// carriage return stripped from the end of each segment that a newline
/// closed, the final segment kept as it stands, and a final newline
/// producing no extra empty line.
pub open spec fn split_lines(s: Seq<char>) -> Seq<Seq<char>>
    decreases s.len(),
{
    if s.len() == 0 {
        Seq::empty()
    } else {
        let i = first_nl(s);
        if 0 <= i < s.len() {
            seq![strip_cr(s.take(i))] + split_lines(s.skip(i + 1))
        } else {
            seq![s]
        }
    }
}

/// `m` is a prefix of `l`.
pub open spec fn starts_with(l: Seq<char>, m: Seq<char>) -> bool {
    m.len() <= l.len() && l.take(m.len() as int) == m
}

/// What follows the first occurrence of `c` in `s`, if `c` occurs at all,
/// as `str::split_once` returns it.
pub open spec fn after_char(s: Seq<char>, c: char) -> Option<Seq<char>>
    decreases s.len(),
{
    if s.len() == 0 {
        None
    } else if s[0] == c {
        Some(s.drop_first())
    } else {
        after_char(s.drop_first(), c)
    }
}

/// `after_char` found at a concrete position.
proof fn lemma_after_char_at(s: Seq<char>, c: char, k: int)
    requires
        0 <= k < s.len(),
        forall|m: int| 0 <= m < k ==> s[m] != c,
        s[k] == c,
    ensures
        after_char(s, c) == Some(s.skip(k + 1)),
    decreases s.len(),
{
    if s[0] == c {
        assert(k == 0);
        assert(s.drop_first() =~= s.skip(1));
    } else {
        assert(k >= 1);
        lemma_after_char_at(s.drop_first(), c, k - 1);
        assert(s.drop_first().skip(k) =~= s.skip(k + 1));
    }
}

/// `after_char` finds nothing when `c` does not occur.
proof fn lemma_after_char_none(s: Seq<char>, c: char)
    requires
        forall|m: int| 0 <= m < s.len() ==> s[m] != c,
    ensures
        after_char(s, c) is None,
    decreases s.len(),
{
    if s.len() > 0 {
        lemma_after_char_none(s.drop_first(), c);
    }
}

/// The index of the first occurrence of `c` in `s` at or after `from`, or
/// the length of `s` if there is none from there on.
pub fn find_char(s: &str, c: char, from: usize) -> (r: usize)
    requires
        from <= s@.len(),
        s@.len() <= usize::MAX,
    ensures
        from <= r <= s@.len(),
        forall|k: int| from <= k < r ==> s@[k] != c,
        r < s@.len() ==> s@[r as int] == c,
{
    let n = s.unicode_len();
    let mut i: usize = from;
    while i < n && s.get_char(i) != c
        invariant
            from <= i <= n,
            n == s@.len(),
            forall|k: int| from <= k < i ==> s@[k] != c,
        decreases n - i,
    {
        i = i + 1;
    }
    i
}

/// What follows the first occurrence of `c` in `s`, as
/// `s.split_once(c).map(|(_, rest)| rest)` returns it.
pub fn after_char_str<'a>(s: &'a str, c: char) -> (r: Option<&'a str>)
    ensures
        match r {
            Some(rest) => after_char(s@, c) == Some(rest@),
            None => after_char(s@, c) is None,
        },
{
    let n = s.unicode_len();
    let k = find_char(s, c, 0);
    if k == n {
        proof {
            lemma_after_char_none(s@, c);
        }
        None
    } else {
        proof {
            lemma_after_char_at(s@, c, k as int);
        }
        let rest = s.substring_char(k + 1, n);
        assert(rest@ =~= s@.skip(k + 1));
        Some(rest)
    }
}

/// The error message a report line carries: what follows the first `'-'`
/// after the first `':'`, if both are there.
pub open spec fn line_error(l: Seq<char>) -> Option<Seq<char>> {
    match after_char(l, ':') {
        None => None,
        Some(rest) => after_char(rest, '-'),
    }
}

/// The error messages of the lines that begin with `marker`, in order.
pub open spec fn errors_of_lines(ls: Seq<Seq<char>>, marker: Seq<char>) -> Seq<Seq<char>>
    decreases ls.len(),
{
    if ls.len() == 0 {
        Seq::empty()
    } else {
        (if starts_with(ls[0], marker) && line_error(ls[0]) is Some {
            seq![line_error(ls[0])->0]
        } else {
            Seq::empty()
        }) + errors_of_lines(ls.drop_first(), marker)
    }
}

/// The error messages that the lines of `text` beginning with `marker`
/// carry, in the order the lines stand in `text`.
pub open spec fn errors_in(text: Seq<char>, marker: Seq<char>) -> Seq<Seq<char>> {
    errors_of_lines(split_lines(text), marker)
}

/// Collects the error messages of every line of `text` that begins with
/// `marker`, in order.
pub fn collect_errors(text: &str, marker: &str) -> (r: Vec<String>)
    ensures
        strs_view(r@) == errors_in(text@, marker@),
{
    let tlen = text.unicode_len();
    let mut out: Vec<String> = Vec::new();
    let mut pos: usize = 0;
    proof {
        assert(text@.skip(0) =~= text@);
        assert(strs_view(out@) + errors_of_lines(split_lines(text@), marker@)
            =~= errors_of_lines(split_lines(text@), marker@));
    }
    while pos < tlen
        invariant
            0 <= pos <= tlen,
            tlen == text@.len(),
            errors_in(text@, marker@) =~= strs_view(out@) + errors_of_lines(
                split_lines(text@.skip(pos as int)),
                marker@,
            ),
        decreases tlen - pos,
    {
        let ghost rest = text@.skip(pos as int);
        let e = find_char(text, '\n', pos);
        proof {
            assert(forall|k: int| 0 <= k < e - pos ==> rest[k] != '\n');
            assert(e < tlen ==> rest[e - pos] == '\n');
            lemma_first_nl_at(rest, e - pos);
        }
        let lend: usize = if e < tlen && e > pos && text.get_char(e - 1) == '\r' {
            e - 1
        } else {
            e
        };
        let line = text.substring_char(pos, lend);
        let ghost seg = if e < tlen {
            strip_cr(rest.take(e - pos))
        } else {
            rest
        };
        proof {
            assert(rest.take(e - pos) =~= text@.subrange(pos as int, e as int));
            if e < tlen {
                if e > pos && text@[e - 1] == '\r' {
                    assert(rest.take(e - pos).drop_last() =~= text@.subrange(
                        pos as int,
                        e - 1,
                    ));
                } else {
                }
            } else {
                assert(rest =~= text@.subrange(pos as int, e as int));
            }
            assert(line@ == seg);
        }
        let mlen = marker.unicode_len();
        let llen = line.unicode_len();
        let is_report = if mlen <= llen {
            match_at_exec(line, marker, 0)
        } else {
            false
        };
        proof {
            if marker@.len() <= line@.len() {
                assert(line@.take(marker@.len() as int) =~= line@.subrange(
                    0,
                    marker@.len() as int,
                ));
            }
            assert(is_report == starts_with(seg, marker@));
        }
        let ghost out0 = out@;
        if is_report {
            match after_char_str(line, ':') {
                None => {
                    assert(line_error(seg) is None);
                },
                Some(after_colon) => {
                    match after_char_str(after_colon, '-') {
                        None => {
                            assert(line_error(seg) is None);
                        },
                        Some(err) => {
                            assert(line_error(seg) == Some(err@));
                            out.push(err.to_owned());
                            assert(strs_view(out@) =~= strs_view(out0) + seq![err@]);
                        },
                    }
                },
            }
        }
        let ghost contribution = if starts_with(seg, marker@) && line_error(seg) is Some {
            seq![line_error(seg)->0]
        } else {
            Seq::<Seq<char>>::empty()
        };
        assert(strs_view(out@) =~= strs_view(out0) + contribution);
        let ghost prev_pos = pos as int;
        if e < tlen {
            pos = e + 1;
        } else {
            pos = tlen;
        }
        proof {
            lemma_collect_step(text@, marker@, prev_pos, e as int, seg, strs_view(out@));
            assert(strs_view(out0) + (contribution + errors_of_lines(
                split_lines(text@.skip(pos as int)),
                marker@,
            )) =~= strs_view(out@) + errors_of_lines(
                split_lines(text@.skip(pos as int)),
                marker@,
            ));
        }
    }
    assert(split_lines(text@.skip(tlen as int)) =~= Seq::<Seq<char>>::empty());
    assert(errors_in(text@, marker@) =~= strs_view(out@));
    out
}

/// One step of the line scan: the first line of the remainder accounted for.
proof fn lemma_collect_step(
    text: Seq<char>,
    marker: Seq<char>,
    pos: int,
    e: int,
    seg: Seq<char>,
    acc: Seq<Seq<char>>,
)
    requires
        0 <= pos <= e <= text.len(),
        pos < text.len(),
        first_nl(text.skip(pos)) == e - pos,
        seg == if e < text.len() {
            strip_cr(text.skip(pos).take(e - pos))
        } else {
            text.skip(pos)
        },
    ensures
        errors_of_lines(split_lines(text.skip(pos)), marker) == (if starts_with(seg, marker)
            && line_error(seg) is Some {
            seq![line_error(seg)->0]
        } else {
            Seq::<Seq<char>>::empty()
        }) + errors_of_lines(
            split_lines(text.skip(if e < text.len() { e + 1 } else { text.len() as int })),
            marker,
        ),
{
    let rest = text.skip(pos);
    assert(rest.len() == text.len() - pos);
    if e < text.len() {
        assert(first_nl(rest) == e - pos < rest.len());
        assert(split_lines(rest) == seq![strip_cr(rest.take(e - pos))] + split_lines(
            rest.skip(e - pos + 1),
        ));
        assert(rest.skip(e - pos + 1) =~= text.skip(e + 1));
        let ls = split_lines(rest);
        assert(ls[0] == seg);
        assert(ls.drop_first() =~= split_lines(text.skip(e + 1)));
        assert(errors_of_lines(ls, marker) == (if starts_with(seg, marker) && line_error(
            seg,
        ) is Some {
            seq![line_error(seg)->0]
        } else {
            Seq::<Seq<char>>::empty()
        }) + errors_of_lines(ls.drop_first(), marker));
    } else {
        assert(first_nl(rest) == rest.len());
        assert(split_lines(rest) == seq![rest]);
        let ls = seq![seg];
        assert(ls.drop_first() =~= Seq::<Seq<char>>::empty());
        assert(split_lines(text.skip(text.len() as int)) =~= Seq::<Seq<char>>::empty());
    }
}

/// Appending one more line to a joined text appends a newline and the line.
proof fn lemma_join_nl_snoc(s: Seq<Seq<char>>, i: int)
    requires
        1 <= i < s.len(),
    ensures
        join_nl(s.take(i + 1)) == join_nl(s.take(i)) + seq!['\n'] + s[i],
    decreases i,
{
    if i == 1 {
        let two = s.take(2);
        assert(two.drop_first() =~= seq![s[1]]);
        assert(join_nl(seq![s[1]]) == s[1]);
        assert(s.take(1) =~= seq![s[0]]);
        assert(join_nl(s.take(1)) == s[0]);
        assert(join_nl(two) =~= join_nl(s.take(1)) + seq!['\n'] + s[1]);
    } else {
        let t = s.drop_first();
        lemma_join_nl_snoc(t, i - 1);
        assert(s.take(i + 1).drop_first() =~= t.take(i));
        assert(s.take(i).drop_first() =~= t.take(i - 1));
        assert(join_nl(s.take(i + 1)) == s[0] + seq!['\n'] + join_nl(t.take(i)));
        assert(join_nl(s.take(i)) == s[0] + seq!['\n'] + join_nl(t.take(i - 1)));
        assert(t[i - 1] == s[i]);
        assert(s[0] + seq!['\n'] + (join_nl(t.take(i - 1)) + seq!['\n'] + t[i - 1]) =~= (s[0]
            + seq!['\n'] + join_nl(t.take(i - 1))) + seq!['\n'] + s[i]);
    }
}

} // verus!
