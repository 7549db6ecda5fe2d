//! Token classification and command simplification.
//!
//! A command line is a sequence of tokens separated by single spaces. When the
//! leading token names the editor (its suffix is `nvim` or `nvim.exe`), the
//! trailing run of filename-like tokens is kept and everything in between is
//! dropped, yielding a canonical `nvim <files...>` invocation.

use vstd::prelude::*;

verus! {

// ---------------------------------------------------------------------------
// Character and token classification
// ---------------------------------------------------------------------------

/// A character that keeps a token from counting as a filename.
pub open spec fn forbidden_char(c: char) -> bool {
    c == '\u{0}' || c == '<' || c == '>' || c == '"' || c == ':' || c == '|' || c == '?'
        || c == ';' || c == '='
}

/// A token could stand for a filename when none of its characters is forbidden.
/// This is deliberately permissive: it exists to reject known-bad tokens
/// (quoted scripting snippets, assignment-like strings), not to validate real
/// filesystem names. The empty string, `.` and `..` all pass.
pub open spec fn filename_token(t: Seq<char>) -> bool {
    forall|i: int| 0 <= i < t.len() ==> !forbidden_char(t[i])
}

/// Checks whether a string could be a filename.
pub fn could_be_filename(s: &str) -> (r: bool)
    ensures
        r == filename_token(s@),
{
    let n: usize = s.unicode_len();
    let mut i: usize = 0;
    while i < n
        invariant
            n == s@.len(),
            0 <= i <= n,
            forall|j: int| 0 <= j < i ==> !forbidden_char(s@[j]),
        decreases n - i,
    {
        let c = s.get_char(i);
        if c == '\u{0}' || c == '<' || c == '>' || c == '"' || c == ':' || c == '|' || c == '?'
            || c == ';' || c == '=' {
            assert(forbidden_char(s@[i as int]));
            return false;
        }
        i = i + 1;
    }
    true
}

// ---------------------------------------------------------------------------
// Splitting on single spaces and joining back
// ---------------------------------------------------------------------------

/// A token produced by splitting contains no space.
pub open spec fn space_free(t: Seq<char>) -> bool {
    forall|i: int| 0 <= i < t.len() ==> t[i] != ' '
}

/// Splits a string at every single space. Consecutive spaces yield empty
/// tokens; the result is never empty.
pub open spec fn split_spaces(s: Seq<char>) -> Seq<Seq<char>>
    decreases s.len(),
{
    if s.len() == 0 {
        seq![Seq::<char>::empty()]
    } else if s[0] == ' ' {
        seq![Seq::<char>::empty()] + split_spaces(s.drop_first())
    } else {
        let rest = split_spaces(s.drop_first());
        seq![seq![s[0]] + rest[0]] + rest.drop_first()
    }
}

/// Joins tokens with single spaces.
pub open spec fn join_spaces(ts: Seq<Seq<char>>) -> Seq<char>
    decreases ts.len(),
{
    if ts.len() == 0 {
        Seq::<char>::empty()
    } else if ts.len() == 1 {
        ts[0]
    } else {
        ts[0] + seq![' '] + join_spaces(ts.drop_first())
    }
}

pub proof fn lemma_split_spaces_len(s: Seq<char>)
    ensures
        split_spaces(s).len() >= 1,
    decreases s.len(),
{
    if s.len() == 0 {
    } else {
        lemma_split_spaces_len(s.drop_first());
    }
}

/// Every token of a split is space-free.
pub proof fn lemma_split_spaces_tokens(s: Seq<char>)
    ensures
        forall|i: int| 0 <= i < split_spaces(s).len() ==> space_free(#[trigger] split_spaces(s)[i]),
    decreases s.len(),
{
    if s.len() == 0 {
        assert(split_spaces(s) == seq![Seq::<char>::empty()]);
        assert(space_free(split_spaces(s)[0]));
    } else if s[0] == ' ' {
        lemma_split_spaces_tokens(s.drop_first());
        let rest = split_spaces(s.drop_first());
        assert forall|i: int| 0 <= i < split_spaces(s).len() implies space_free(
            #[trigger] split_spaces(s)[i],
        ) by {
            if i == 0 {
                assert(split_spaces(s)[0] =~= Seq::<char>::empty());
            } else {
                assert(split_spaces(s)[i] == rest[i - 1]);
                assert(space_free(rest[i - 1]));
            }
        }
    } else {
        lemma_split_spaces_tokens(s.drop_first());
        lemma_split_spaces_len(s.drop_first());
        let rest = split_spaces(s.drop_first());
        assert forall|i: int| 0 <= i < split_spaces(s).len() implies space_free(
            #[trigger] split_spaces(s)[i],
        ) by {
            if i == 0 {
                assert(space_free(rest[0]));
                assert(split_spaces(s)[0] == seq![s[0]] + rest[0]);
                assert(forall|j: int|
                    1 <= j < (seq![s[0]] + rest[0]).len() ==> (seq![s[0]] + rest[0])[j]
                        == rest[0][j - 1]);
                assert((seq![s[0]] + rest[0])[0] == s[0]);
            } else {
                assert(split_spaces(s)[i] == rest[i]);
                assert(space_free(rest[i]));
            }
        }
    }
}

/// Splitting a space-free string yields that string alone.
pub proof fn lemma_split_no_space(s: Seq<char>)
    requires
        space_free(s),
    ensures
        split_spaces(s) =~~= seq![s],
    decreases s.len(),
{
    if s.len() == 0 {
    } else {
        lemma_split_no_space(s.drop_first());
        assert(seq![s[0]] + s.drop_first() =~= s);
    }
}

/// Splitting at the first space splits off the prefix before it.
pub proof fn lemma_split_first_space(s: Seq<char>, k: int)
    requires
        0 <= k < s.len(),
        s[k] == ' ',
        forall|j: int| 0 <= j < k ==> s[j] != ' ',
    ensures
        split_spaces(s) =~~= seq![s.subrange(0, k)] + split_spaces(
            s.subrange(k + 1, s.len() as int),
        ),
    decreases k,
{
    if k == 0 {
        assert(s.drop_first() =~= s.subrange(1, s.len() as int));
    } else {
        let d = s.drop_first();
        lemma_split_first_space(d, k - 1);
        lemma_split_spaces_len(d.subrange(k, d.len() as int));
        assert(d.subrange(k, d.len() as int) =~= s.subrange(k + 1, s.len() as int));
        assert(seq![s[0]] + d.subrange(0, k - 1) =~= s.subrange(0, k));
    }
}

/// Splitting a join of space-free tokens reproduces the tokens.
pub proof fn lemma_split_join(ts: Seq<Seq<char>>)
    requires
        ts.len() >= 1,
        forall|i: int| 0 <= i < ts.len() ==> space_free(#[trigger] ts[i]),
    ensures
        split_spaces(join_spaces(ts)) =~~= ts,
    decreases ts.len(),
{
    if ts.len() == 1 {
        lemma_split_no_space(ts[0]);
    } else {
        let s = join_spaces(ts);
        let k = ts[0].len() as int;
        assert(s == ts[0] + seq![' '] + join_spaces(ts.drop_first()));
        assert(forall|j: int| 0 <= j < k ==> s[j] == ts[0][j]);
        assert(s[k] == ' ');
        lemma_split_first_space(s, k);
        assert(s.subrange(0, k) =~= ts[0]);
        assert(s.subrange(k + 1, s.len() as int) =~= join_spaces(ts.drop_first()));
        lemma_split_join(ts.drop_first());
    }
}

/// Appending one more token to a join.
pub proof fn lemma_join_push(ts: Seq<Seq<char>>, t: Seq<char>)
    ensures
        join_spaces(ts.push(t)) == if ts.len() == 0 {
            t
        } else {
            join_spaces(ts) + seq![' '] + t
        },
    decreases ts.len(),
{
    if ts.len() == 0 {
        assert(ts.push(t) =~~= seq![t]);
        assert(join_spaces(seq![t]) == t);
    } else if ts.len() == 1 {
        assert(ts.push(t).drop_first() =~~= seq![t]);
        assert(join_spaces(ts.push(t)) == ts[0] + seq![' '] + join_spaces(seq![t]));
    } else {
        lemma_join_push(ts.drop_first(), t);
        assert(ts.push(t).drop_first() =~~= ts.drop_first().push(t));
        assert(join_spaces(ts.push(t)) == ts[0] + seq![' '] + join_spaces(ts.drop_first().push(t)));
        assert(ts[0] + seq![' '] + (join_spaces(ts.drop_first()) + seq![' '] + t) =~= (ts[0]
            + seq![' '] + join_spaces(ts.drop_first())) + seq![' '] + t);
    }
}

// ---------------------------------------------------------------------------
// Suffix, prefix, substring search
// ---------------------------------------------------------------------------

pub open spec fn has_suffix(s: Seq<char>, p: Seq<char>) -> bool {
    s.len() >= p.len() && s.subrange(s.len() - p.len(), s.len() as int) == p
}

pub open spec fn has_prefix(s: Seq<char>, p: Seq<char>) -> bool {
    s.len() >= p.len() && s.subrange(0, p.len() as int) == p
}

/// `pat` occurs in `s` at position `i`.
pub open spec fn occurs_at(s: Seq<char>, pat: Seq<char>, i: int) -> bool {
    0 <= i && i + pat.len() <= s.len() && s.subrange(i, i + pat.len()) == pat
}

/// `pat` occurs somewhere in `s`.
pub open spec fn contains_seq(s: Seq<char>, pat: Seq<char>) -> bool {
    exists|i: int| occurs_at(s, pat, i)
}

pub fn has_suffix_exec(s: &str, p: &str) -> (r: bool)
    ensures
        r == has_suffix(s@, p@),
{
    let n: usize = s.unicode_len();
    let m: usize = p.unicode_len();
    if n < m {
        return false;
    }
    let mut i: usize = 0;
    while i < m
        invariant
            n == s@.len(),
            m == p@.len(),
            m <= n,
            0 <= i <= m,
            forall|j: int| 0 <= j < i ==> s@[n - m + j] == p@[j],
        decreases m - i,
    {
        if s.get_char(n - m + i) != p.get_char(i) {
            assert(s@.subrange(n - m, n as int)[i as int] != p@[i as int]);
            return false;
        }
        i = i + 1;
    }
    assert(s@.subrange(n - m, n as int) =~= p@);
    true
}

pub fn has_prefix_exec(s: &str, p: &str) -> (r: bool)
    ensures
        r == has_prefix(s@, p@),
{
    let n: usize = s.unicode_len();
    let m: usize = p.unicode_len();
    if n < m {
        return false;
    }
    let mut i: usize = 0;
    while i < m
        invariant
            n == s@.len(),
            m == p@.len(),
            m <= n,
            0 <= i <= m,
            forall|j: int| 0 <= j < i ==> s@[j] == p@[j],
        decreases m - i,
    {
        if s.get_char(i) != p.get_char(i) {
            assert(s@.subrange(0, m as int)[i as int] != p@[i as int]);
            return false;
        }
        i = i + 1;
    }
    assert(s@.subrange(0, m as int) =~= p@);
    true
}

/// Character-for-character string equality.
pub fn str_eq(a: &str, b: &str) -> (r: bool)
    ensures
        r == (a@ == b@),
{
    let n: usize = a.unicode_len();
    let m: usize = b.unicode_len();
    if n != m {
        return false;
    }
    let mut i: usize = 0;
    while i < n
        invariant
            n == a@.len(),
            n == b@.len(),
            0 <= i <= n,
            forall|j: int| 0 <= j < i ==> a@[j] == b@[j],
        decreases n - i,
    {
        if a.get_char(i) != b.get_char(i) {
            return false;
        }
        i = i + 1;
    }
    assert(a@ =~= b@);
    true
}

/// Joins strings with single spaces.
pub fn join_exec(parts: &Vec<String>) -> (r: String)
    ensures
        r@ == join_spaces(strs_view(parts@)),
{
    proof {
        reveal_strlit(" ");
        assert(" "@ =~= seq![' ']);
    }
    let ghost ts = strs_view(parts@);
    let mut r = String::new();
    if parts.len() == 0 {
        return r;
    }
    let mut idx: usize = 0;
    while idx < parts.len()
        invariant
            ts == strs_view(parts@),
            ts.len() == parts@.len(),
            forall|j: int| 0 <= j < parts@.len() ==> #[trigger] parts@[j]@ == ts[j],
            0 <= idx <= parts@.len(),
            " "@ == seq![' '],
            r@ == join_spaces(ts.take(idx as int)),
        decreases parts.len() - idx,
    {
        let ghost pre = ts.take(idx as int);
        if idx > 0 {
            r.append(" ");
        }
        r.append(parts[idx].as_str());
        proof {
            lemma_join_push(pre, ts[idx as int]);
            assert(ts.take(idx + 1) =~~= pre.push(ts[idx as int]));
            if idx > 0 {
                assert(r@ =~= join_spaces(pre) + seq![' '] + ts[idx as int]);
            } else {
                assert(pre =~~= Seq::<Seq<char>>::empty());
                assert(r@ =~= ts[0]);
            }
        }
        idx = idx + 1;
    }
    proof {
        assert(ts.take(ts.len() as int) =~~= ts);
    }
    r
}

/// Checks whether `pat` occurs anywhere in `s`.
pub fn contains_exec(s: &str, pat: &str) -> (r: bool)
    ensures
        r == contains_seq(s@, pat@),
{
    let n: usize = s.unicode_len();
    let m: usize = pat.unicode_len();
    if m > n {
        assert(forall|i: int| !occurs_at(s@, pat@, i));
        return false;
    }
    if m == 0 {
        assert(s@.subrange(0, 0) =~= pat@);
        assert(occurs_at(s@, pat@, 0));
        return true;
    }
    let mut i: usize = 0;
    while i <= n - m
        invariant
            n == s@.len(),
            m == pat@.len(),
            1 <= m <= n,
            0 <= i <= n - m + 1,
            forall|q: int| 0 <= q < i ==> !occurs_at(s@, pat@, q),
        decreases n - m + 1 - i,
    {
        let mut j: usize = 0;
        let mut ok: bool = true;
        while j < m && ok
            invariant
                n == s@.len(),
                m == pat@.len(),
                m <= n,
                0 <= i <= n - m,
                0 <= j <= m,
                ok ==> forall|q: int| 0 <= q < j ==> s@[i + q] == pat@[q],
                !ok ==> !occurs_at(s@, pat@, i as int),
            decreases m - j + if ok {
                1int
            } else {
                0int
            },
        {
            if s.get_char(i + j) != pat.get_char(j) {
                ok = false;
                proof {
                    assert(s@.subrange(i as int, i + m)[j as int] != pat@[j as int]);
                    assert(!occurs_at(s@, pat@, i as int));
                }
            } else {
                j = j + 1;
            }
        }
        if ok {
            assert(s@.subrange(i as int, i + m) =~= pat@);
            assert(occurs_at(s@, pat@, i as int));
            return true;
        }
        i = i + 1;
    }
    assert forall|q: int| !occurs_at(s@, pat@, q) by {
        if 0 <= q <= n - m {
            assert(!occurs_at(s@, pat@, q));
        }
    }
    false
}

// ---------------------------------------------------------------------------
// The simplifier
// ---------------------------------------------------------------------------

pub open spec fn nvim_chars() -> Seq<char> {
    seq!['n', 'v', 'i', 'm']
}

pub open spec fn nvim_exe_chars() -> Seq<char> {
    seq!['n', 'v', 'i', 'm', '.', 'e', 'x', 'e']
}

/// The leading token launches the editor.
pub open spec fn editor_head(t: Seq<char>) -> bool {
    has_suffix(t, nvim_chars()) || has_suffix(t, nvim_exe_chars())
}

/// A token that stops the backward scan: an option flag, or a token that could
/// not be a filename.
pub open spec fn scan_stop(t: Seq<char>) -> bool {
    (t.len() > 0 && t[0] == '-') || !filename_token(t)
}

/// Length of the trailing run of filename tokens, scanning backward and never
/// consuming the leading token.
pub open spec fn trailing_run(ts: Seq<Seq<char>>) -> int
    decreases ts.len(),
{
    if ts.len() <= 1 {
        0
    } else if scan_stop(ts.last()) {
        0
    } else {
        1 + trailing_run(ts.drop_last())
    }
}

pub proof fn lemma_trailing_run_bounds(ts: Seq<Seq<char>>)
    ensures
        0 <= trailing_run(ts),
        ts.len() >= 1 ==> trailing_run(ts) <= ts.len() - 1,
    decreases ts.len(),
{
    if ts.len() <= 1 {
    } else if scan_stop(ts.last()) {
    } else {
        lemma_trailing_run_bounds(ts.drop_last());
    }
}

/// The trailing run is exactly the maximal suffix of non-stopping tokens.
pub proof fn lemma_trailing_run_char(ts: Seq<Seq<char>>, k: int)
    requires
        ts.len() >= 1,
        0 <= k <= ts.len() - 1,
        forall|j: int| ts.len() - k <= j < ts.len() ==> !scan_stop(#[trigger] ts[j]),
        k == ts.len() - 1 || scan_stop(ts[ts.len() - 1 - k]),
    ensures
        trailing_run(ts) == k,
    decreases ts.len(),
{
    if k == 0 {
        if ts.len() > 1 {
            assert(scan_stop(ts.last()));
        }
    } else {
        assert(!scan_stop(ts[ts.len() - 1]));
        let d = ts.drop_last();
        assert forall|j: int| d.len() - (k - 1) <= j < d.len() implies !scan_stop(
            #[trigger] d[j],
        ) by {
            assert(d[j] == ts[j]);
        }
        if k - 1 != d.len() - 1 {
            assert(d[d.len() - 1 - (k - 1)] == ts[ts.len() - 1 - k]);
        }
        lemma_trailing_run_char(d, k - 1);
    }
}

/// The simplified form of a command line: unchanged unless the leading token
/// is the editor; otherwise `nvim` followed by the trailing run of filename
/// tokens.
pub open spec fn simplify_command(s: Seq<char>) -> Seq<char> {
    let ts = split_spaces(s);
    if !editor_head(ts[0]) {
        s
    } else {
        let k = trailing_run(ts);
        if k == 0 {
            nvim_chars()
        } else {
            nvim_chars() + seq![' '] + join_spaces(ts.subrange(ts.len() - k, ts.len() as int))
        }
    }
}

/// The character sequences of a sequence of strings.
pub open spec fn strs_view(v: Seq<String>) -> Seq<Seq<char>> {
    v.map_values(|x: String| x@)
}

/// Splits a string at every single space; consecutive spaces yield empty
/// tokens.
pub fn split_spaces_exec(s: &str) -> (r: Vec<String>)
    ensures
        strs_view(r@) =~~= split_spaces(s@),
{
    let n: usize = s.unicode_len();
    let mut toks: Vec<String> = Vec::new();
    let mut start: usize = 0;
    let mut i: usize = 0;
    proof {
        assert(s@.subrange(0, n as int) =~= s@);
        assert(strs_view(Seq::<String>::empty()) =~~= Seq::<Seq<char>>::empty());
        assert(strs_view(Seq::<String>::empty()) + split_spaces(s@) =~~= split_spaces(s@));
    }
    while i < n
        invariant
            n == s@.len(),
            0 <= start <= i <= n,
            forall|j: int| start <= j < i ==> s@[j] != ' ',
            split_spaces(s@) =~~= strs_view(toks@) + split_spaces(
                s@.subrange(start as int, n as int),
            ),
        decreases n - i,
    {
        if s.get_char(i) == ' ' {
            let t = String::from_str(s.substring_char(start, i));
            proof {
                let tail = s@.subrange(start as int, n as int);
                lemma_split_first_space(tail, i - start);
                assert(tail.subrange(0, i - start) =~= s@.subrange(start as int, i as int));
                assert(tail.subrange(i - start + 1, tail.len() as int) =~= s@.subrange(
                    i + 1,
                    n as int,
                ));
                assert(strs_view(toks@.push(t)) =~~= strs_view(toks@).push(t@));
            }
            toks.push(t);
            start = i + 1;
        }
        i = i + 1;
    }
    let t = String::from_str(s.substring_char(start, n));
    proof {
        lemma_split_no_space(s@.subrange(start as int, n as int));
        assert(strs_view(toks@.push(t)) =~~= strs_view(toks@).push(t@));
    }
    toks.push(t);
    toks
}

fn token_stops(s: &str) -> (r: bool)
    ensures
        r == scan_stop(s@),
{
    let n: usize = s.unicode_len();
    if n > 0 && s.get_char(0) == '-' {
        return true;
    }
    !could_be_filename(s)
}

/// Formats a long editor command into a simple `nvim <files...>` form,
/// extracting filenames from the end of the command and ignoring flags and
/// options. Commands not led by the editor pass through unchanged.
pub fn format_nvim(command: &str) -> (r: String)
    ensures
        r@ == simplify_command(command@),
{
    proof {
        reveal_strlit("nvim");
        reveal_strlit("nvim.exe");
        reveal_strlit(" ");
        assert("nvim"@ =~= nvim_chars());
        assert("nvim.exe"@ =~= nvim_exe_chars());
        assert(" "@ =~= seq![' ']);
        lemma_split_spaces_len(command@);
    }
    let toks = split_spaces_exec(command);
    let ghost ts = split_spaces(command@);
    assert(toks@.len() == ts.len());
    let first = &toks[0];
    assert(first@ == ts[0]);
    if !(has_suffix_exec(first.as_str(), "nvim") || has_suffix_exec(first.as_str(), "nvim.exe")) {
        assert(!editor_head(ts[0]));
        return String::from_str(command);
    }
    assert(editor_head(ts[0]));
    let len: usize = toks.len();
    let mut k: usize = 0;
    let mut stopped: bool = false;
    while !stopped && k < len - 1
        invariant
            len == ts.len(),
            len >= 1,
            toks@.len() == len,
            forall|j: int| 0 <= j < len ==> #[trigger] toks@[j]@ == ts[j],
            0 <= k <= len - 1,
            forall|j: int| len - k <= j < len ==> !scan_stop(#[trigger] ts[j]),
            stopped ==> scan_stop(ts[len - 1 - k]),
        decreases len - 1 - k + if stopped {
            0int
        } else {
            1int
        },
    {
        let t = &toks[len - 1 - k];
        if token_stops(t.as_str()) {
            stopped = true;
        } else {
            k = k + 1;
        }
    }
    proof {
        lemma_trailing_run_char(ts, k as int);
    }
    let mut r = String::from_str("nvim");
    assert(r@ == nvim_chars());
    if k > 0 {
        let mut idx: usize = len - k;
        while idx < len
            invariant
                len == ts.len(),
                toks@.len() == len,
                forall|j: int| 0 <= j < len ==> #[trigger] toks@[j]@ == ts[j],
                1 <= k <= len - 1,
                len - k <= idx <= len,
                " "@ == seq![' '],
                r@ == if idx == len - k {
                    nvim_chars()
                } else {
                    nvim_chars() + seq![' '] + join_spaces(ts.subrange(len - k, idx as int))
                },
            decreases len - idx,
        {
            let ghost pre = ts.subrange(len - k, idx as int);
            r.append(" ");
            r.append(toks[idx].as_str());
            proof {
                lemma_join_push(pre, ts[idx as int]);
                assert(ts.subrange(len - k, idx + 1) =~~= pre.push(ts[idx as int]));
                if idx > len - k {
                    assert(r@ == nvim_chars() + seq![' '] + (join_spaces(pre) + seq![' ']
                        + ts[idx as int]));
                    assert(nvim_chars() + seq![' '] + (join_spaces(pre) + seq![' ']
                        + ts[idx as int]) =~= nvim_chars() + seq![' '] + join_spaces(
                        ts.subrange(len - k, idx + 1),
                    ));
                } else {
                    assert(join_spaces(ts.subrange(len - k, idx + 1)) == ts[idx as int]);
                }
            }
            idx = idx + 1;
        }
        assert(r@ == simplify_command(command@));
    }
    r
}

/// The trailing-run law: for a command joined from space-free tokens whose
/// leading token is the editor, if the last `k` tokens pass the filename
/// classifier and are not flags, and the scan stops just before them (or they
/// are all of the rest), the simplifier keeps exactly those `k` tokens.
pub proof fn lemma_trailing_run_extraction(tokens: Seq<Seq<char>>, k: int)
    requires
        tokens.len() >= 1,
        editor_head(tokens[0]),
        forall|i: int| 0 <= i < tokens.len() ==> space_free(#[trigger] tokens[i]),
        0 <= k <= tokens.len() - 1,
        forall|j: int| tokens.len() - k <= j < tokens.len() ==> !scan_stop(#[trigger] tokens[j]),
        k == tokens.len() - 1 || scan_stop(tokens[tokens.len() - 1 - k]),
    ensures
        simplify_command(join_spaces(tokens)) == if k == 0 {
            nvim_chars()
        } else {
            nvim_chars() + seq![' '] + join_spaces(
                tokens.subrange(tokens.len() - k, tokens.len() as int),
            )
        },
{
    lemma_split_join(tokens);
    lemma_trailing_run_char(tokens, k);
}

} // verus!
