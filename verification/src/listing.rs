//! Reading the text that the `dotnet` host prints: lines, whitespace-separated
//! tokens, and the two facts the bridge takes from it (the newest installed runtime
//! version, and the SDK base paths).
use crate::text::chars_of;
use vstd::prelude::*;
use vstd::string::*;

verus! {

/// Unicode `White_Space` characters (what `char::is_whitespace` accepts).
pub open spec fn is_ws(c: char) -> bool {
    ||| ('\u{9}' <= c && c <= '\u{d}')
    ||| c == ' '
    ||| c == '\u{85}'
    ||| c == '\u{a0}'
    ||| c == '\u{1680}'
    ||| ('\u{2000}' <= c && c <= '\u{200a}')
    ||| c == '\u{2028}'
    ||| c == '\u{2029}'
    ||| c == '\u{202f}'
    ||| c == '\u{205f}'
    ||| c == '\u{3000}'
}

/// Index of the first `'\n'` in `s`.
pub open spec fn newline_index(s: Seq<char>) -> Option<int>
    decreases s.len(),
{
    if s.len() == 0 {
        None
    } else if s[0] == '\n' {
        Some(0)
    } else {
        match newline_index(s.drop_first()) {
            Some(i) => Some(i + 1),
            None => None,
        }
    }
}

/// The lines of `s` as `str::lines` yields them: split at `'\n'`, a `'\r'` before the
/// `'\n'` removed, no final empty line after a trailing `'\n'`.
pub open spec fn split_lines(s: Seq<char>) -> Seq<Seq<char>>
    decreases s.len(),
{
    if s.len() == 0 {
        seq![]
    } else {
        match newline_index(s) {
            None => seq![s],
            Some(i) => {
                let raw = s.subrange(0, i);
                let line = if raw.len() > 0 && raw.last() == '\r' {
                    raw.drop_last()
                } else {
                    raw
                };
                if 0 <= i < s.len() {
                    seq![line] + split_lines(s.subrange(i + 1, s.len() as int))
                } else {
                    seq![line]
                }
            },
        }
    }
}

/// `s` without its leading whitespace.
pub open spec fn skip_ws(s: Seq<char>) -> Seq<char>
    decreases s.len(),
{
    if s.len() > 0 && is_ws(s[0]) {
        skip_ws(s.drop_first())
    } else {
        s
    }
}

/// `s` without its trailing whitespace.
pub open spec fn skip_ws_end(s: Seq<char>) -> Seq<char>
    decreases s.len(),
{
    if s.len() > 0 && is_ws(s.last()) {
        skip_ws_end(s.drop_last())
    } else {
        s
    }
}

/// `s` without leading and trailing whitespace (as `str::trim` gives it).
pub open spec fn trim(s: Seq<char>) -> Seq<char> {
    skip_ws_end(skip_ws(s))
}

/// The leading run of non-whitespace characters of `s`.
pub open spec fn take_token(s: Seq<char>) -> Seq<char>
    decreases s.len(),
{
    if s.len() > 0 && !is_ws(s[0]) {
        seq![s[0]] + take_token(s.drop_first())
    } else {
        seq![]
    }
}

/// The first whitespace-separated token of `s`.
pub open spec fn first_token(s: Seq<char>) -> Option<Seq<char>> {
    let t = skip_ws(s);
    if t.len() == 0 {
        None
    } else {
        Some(take_token(t))
    }
}

pub open spec fn starts_with(s: Seq<char>, p: Seq<char>) -> bool {
    s.len() >= p.len() && s.subrange(0, p.len() as int) == p
}

pub open spec fn runtime_prefix() -> Seq<char> {
    "Microsoft.NETCore.App "@
}

/// The version that a line of `dotnet --list-runtimes` names: its second token, for a
/// line about the `Microsoft.NETCore.App` framework.
pub open spec fn line_version(l: Seq<char>) -> Option<Seq<char>> {
    if starts_with(l, runtime_prefix()) {
        first_token(l.subrange(runtime_prefix().len() as int, l.len() as int))
    } else {
        None
    }
}

/// The version that the last line naming one gives.
pub open spec fn version_of_lines(ls: Seq<Seq<char>>) -> Option<Seq<char>>
    decreases ls.len(),
{
    if ls.len() == 0 {
        None
    } else {
        match version_of_lines(ls.subrange(1, ls.len() as int)) {
            Some(v) => Some(v),
            None => line_version(ls[0]),
        }
    }
}

/// The version that lines name is that of the last line naming one: a line that names
/// a version overrides all lines before it, and a line that names none changes nothing.
pub proof fn lemma_last_version_wins(ls: Seq<Seq<char>>, l: Seq<char>)
    ensures
        line_version(l) is Some ==> version_of_lines(ls.push(l)) == line_version(l),
        line_version(l) is None ==> version_of_lines(ls.push(l)) == version_of_lines(ls),
    decreases ls.len(),
{
    let all = ls.push(l);
    if ls.len() == 0 {
        assert(all.subrange(1, all.len() as int) =~= Seq::<Seq<char>>::empty());
        assert(all[0] == l);
        assert(version_of_lines(Seq::<Seq<char>>::empty()) is None);
        assert(version_of_lines(all) == match version_of_lines(all.subrange(1, all.len() as int)) {
            Some(v) => Some(v),
            None => line_version(all[0]),
        });
    } else {
        let tail = ls.subrange(1, ls.len() as int);
        lemma_last_version_wins(tail, l);
        assert(all.subrange(1, all.len() as int) =~= tail.push(l));
        assert(all[0] == ls[0]);
        assert(version_of_lines(all) == match version_of_lines(tail.push(l)) {
            Some(v) => Some(v),
            None => line_version(ls[0]),
        });
        assert(version_of_lines(ls) == match version_of_lines(tail) {
            Some(v) => Some(v),
            None => line_version(ls[0]),
        });
    }
}

/// The runtime version that a `dotnet --list-runtimes` listing names last, or
/// `"8.0.0"` when it names none.
pub open spec fn listed_runtime_version(listing: Seq<char>) -> Seq<char> {
    match version_of_lines(split_lines(listing)) {
        Some(v) => v,
        None => "8.0.0"@,
    }
}

pub open spec fn base_path_prefix() -> Seq<char> {
    "Base Path:"@
}

/// The base path that a line of `dotnet --info` names: the trimmed text after
/// `Base Path:` on a trimmed line.
pub open spec fn line_base_path(l: Seq<char>) -> Option<Seq<char>> {
    let t = trim(l);
    if starts_with(t, base_path_prefix()) {
        Some(trim(t.subrange(base_path_prefix().len() as int, t.len() as int)))
    } else {
        None
    }
}

/// The base paths that the lines of `dotnet --info` name, in order.
pub open spec fn base_paths_of_lines(ls: Seq<Seq<char>>) -> Seq<Seq<char>>
    decreases ls.len(),
{
    if ls.len() == 0 {
        seq![]
    } else {
        let rest = base_paths_of_lines(ls.subrange(1, ls.len() as int));
        match line_base_path(ls[0]) {
            Some(p) => seq![p] + rest,
            None => rest,
        }
    }
}

// ---------------------------------------------------------------------------
// Lemmas connecting index scans to the recursive definitions
// ---------------------------------------------------------------------------
proof fn lemma_newline_found(s: Seq<char>, k: int)
    requires
        0 <= k < s.len(),
        s[k] == '\n',
        forall|j: int| 0 <= j < k ==> s[j] != '\n',
    ensures
        newline_index(s) == Some(k),
    decreases k,
{
    if k > 0 {
        lemma_newline_found(s.drop_first(), k - 1);
    }
}

proof fn lemma_newline_absent(s: Seq<char>)
    requires
        forall|j: int| 0 <= j < s.len() ==> s[j] != '\n',
    ensures
        newline_index(s) is None,
    decreases s.len(),
{
    if s.len() > 0 {
        lemma_newline_absent(s.drop_first());
    }
}

proof fn lemma_skip_ws(s: Seq<char>, k: int)
    requires
        0 <= k <= s.len(),
        forall|j: int| 0 <= j < k ==> is_ws(s[j]),
        k == s.len() || !is_ws(s[k]),
    ensures
        skip_ws(s) == s.subrange(k, s.len() as int),
    decreases k,
{
    if k == 0 {
        assert(s.subrange(0, s.len() as int) =~= s);
    } else {
        lemma_skip_ws(s.drop_first(), k - 1);
        assert(s.drop_first().subrange(k - 1, s.len() - 1) =~= s.subrange(k, s.len() as int));
    }
}

proof fn lemma_skip_ws_end(s: Seq<char>, k: int)
    requires
        0 <= k <= s.len(),
        forall|j: int| k <= j < s.len() ==> is_ws(s[j]),
        k == 0 || !is_ws(s[k - 1]),
    ensures
        skip_ws_end(s) == s.subrange(0, k),
    decreases s.len() - k,
{
    if k == s.len() {
        assert(s.subrange(0, k) =~= s);
    } else {
        lemma_skip_ws_end(s.drop_last(), k);
        assert(s.drop_last().subrange(0, k) =~= s.subrange(0, k));
    }
}

proof fn lemma_take_token(s: Seq<char>, k: int)
    requires
        0 <= k <= s.len(),
        forall|j: int| 0 <= j < k ==> !is_ws(s[j]),
        k == s.len() || is_ws(s[k]),
    ensures
        take_token(s) == s.subrange(0, k),
    decreases k,
{
    if k == 0 {
        assert(s.subrange(0, 0) =~= Seq::<char>::empty());
    } else {
        lemma_take_token(s.drop_first(), k - 1);
        assert(seq![s[0]] + s.drop_first().subrange(0, k - 1) =~= s.subrange(0, k));
    }
}

// ---------------------------------------------------------------------------
// Executable scanning
// ---------------------------------------------------------------------------
fn char_is_ws(c: char) -> (r: bool)
    ensures
        r == is_ws(c),
{
    ('\u{9}' <= c && c <= '\u{d}') || c == ' ' || c == '\u{85}' || c == '\u{a0}' || c
        == '\u{1680}' || ('\u{2000}' <= c && c <= '\u{200a}') || c == '\u{2028}' || c
        == '\u{2029}' || c == '\u{202f}' || c == '\u{205f}' || c == '\u{3000}'
}

/// Bounds `(start, end)` of the next line of `cs` starting at `pos` (carriage return
/// removed), and the position after it.
fn next_line(cs: &Vec<char>, pos: usize) -> (r: (usize, usize, usize))
    requires
        pos < cs@.len(),
    ensures
        ({
            let s = cs@.subrange(pos as int, cs@.len() as int);
            let (start, end, next) = r;
            &&& start == pos
            &&& pos <= end <= next <= cs@.len()
            &&& pos < next
            &&& split_lines(s) == seq![cs@.subrange(pos as int, end as int)] + split_lines(
                cs@.subrange(next as int, cs@.len() as int),
            )
        }),
{
    let n = cs.len();
    let ghost s = cs@.subrange(pos as int, cs@.len() as int);
    let mut j = pos;
    while j < n && cs[j] != '\n'
        invariant
            pos <= j <= n,
            n == cs@.len(),
            forall|k: int| pos <= k < j ==> cs@[k] != '\n',
        decreases n - j,
    {
        j = j + 1;
    }
    if j < n {
        proof {
            lemma_newline_found(s, j - pos);
        }
        let mut end = j;
        if end > pos && cs[end - 1] == '\r' {
            end = end - 1;
        }
        proof {
            let raw = s.subrange(0, j - pos);
            assert(raw =~= cs@.subrange(pos as int, j as int));
            if j > pos && cs@[j - 1] == '\r' {
                assert(raw.drop_last() =~= cs@.subrange(pos as int, end as int));
            }
            assert(s.subrange(j - pos + 1, s.len() as int) =~= cs@.subrange(j + 1, cs@.len() as int));
        }
        (pos, end, j + 1)
    } else {
        proof {
            lemma_newline_absent(s);
            assert(cs@.subrange(n as int, n as int) =~= Seq::<char>::empty());
            assert(split_lines(cs@.subrange(n as int, n as int)) =~= Seq::<Seq<char>>::empty());
            assert(s =~= cs@.subrange(pos as int, n as int));
            assert(seq![s] + Seq::<Seq<char>>::empty() =~= seq![s]);
        }
        (pos, n, n)
    }
}

/// Index of the first non-whitespace character of `cs[from..to]` (or `to`).
fn skip_ws_from(cs: &Vec<char>, from: usize, to: usize) -> (k: usize)
    requires
        from <= to <= cs@.len(),
    ensures
        from <= k <= to,
        skip_ws(cs@.subrange(from as int, to as int)) == cs@.subrange(k as int, to as int),
{
    let mut k = from;
    while k < to && char_is_ws(cs[k])
        invariant
            from <= k <= to,
            to <= cs@.len(),
            forall|j: int| from <= j < k ==> is_ws(cs@[j]),
        decreases to - k,
    {
        k = k + 1;
    }
    proof {
        let s = cs@.subrange(from as int, to as int);
        lemma_skip_ws(s, k - from);
        assert(s.subrange(k - from, s.len() as int) =~= cs@.subrange(k as int, to as int));
    }
    k
}

/// End of `cs[from..to]` without trailing whitespace.
fn skip_ws_end_from(cs: &Vec<char>, from: usize, to: usize) -> (k: usize)
    requires
        from <= to <= cs@.len(),
    ensures
        from <= k <= to,
        skip_ws_end(cs@.subrange(from as int, to as int)) == cs@.subrange(from as int, k as int),
{
    let mut k = to;
    while k > from && char_is_ws(cs[k - 1])
        invariant
            from <= k <= to,
            to <= cs@.len(),
            forall|j: int| k <= j < to ==> is_ws(cs@[j]),
        decreases k - from,
    {
        k = k - 1;
    }
    proof {
        let s = cs@.subrange(from as int, to as int);
        lemma_skip_ws_end(s, k - from);
        assert(s.subrange(0, k - from) =~= cs@.subrange(from as int, k as int));
    }
    k
}

/// End of the run of non-whitespace characters of `cs[from..to]`.
fn token_end(cs: &Vec<char>, from: usize, to: usize) -> (k: usize)
    requires
        from <= to <= cs@.len(),
    ensures
        from <= k <= to,
        take_token(cs@.subrange(from as int, to as int)) == cs@.subrange(from as int, k as int),
{
    let mut k = from;
    while k < to && !char_is_ws(cs[k])
        invariant
            from <= k <= to,
            to <= cs@.len(),
            forall|j: int| from <= j < k ==> !is_ws(cs@[j]),
        decreases to - k,
    {
        k = k + 1;
    }
    proof {
        let s = cs@.subrange(from as int, to as int);
        lemma_take_token(s, k - from);
        assert(s.subrange(0, k - from) =~= cs@.subrange(from as int, k as int));
    }
    k
}

/// Whether `cs[from..to]` starts with `p`.
fn starts_with_at(cs: &Vec<char>, from: usize, to: usize, p: &Vec<char>) -> (r: bool)
    requires
        from <= to <= cs@.len(),
    ensures
        r == starts_with(cs@.subrange(from as int, to as int), p@),
{
    let ghost s = cs@.subrange(from as int, to as int);
    if to - from < p.len() {
        return false;
    }
    let mut i: usize = 0;
    while i < p.len()
        invariant
            i <= p@.len(),
            from + p@.len() <= to <= cs@.len(),
            s == cs@.subrange(from as int, to as int),
            forall|j: int| 0 <= j < i ==> cs@[from + j] == p@[j],
        decreases p@.len() - i,
    {
        if cs[from + i] != p[i] {
            proof {
                assert(s.subrange(0, p@.len() as int)[i as int] != p@[i as int]);
            }
            return false;
        }
        i = i + 1;
    }
    assert(s.subrange(0, p@.len() as int) =~= p@);
    true
}

/// The newest runtime version that a `dotnet --list-runtimes` listing names: the
/// version on its last `Microsoft.NETCore.App` line, or `"8.0.0"` if there is none.
pub fn runtime_version_from_listing(listing: &str) -> (r: String)
    ensures
        r@ == listed_runtime_version(listing@),
{
    let cs = chars_of(listing);
    let prefix = chars_of("Microsoft.NETCore.App ");
    let n = cs.len();
    let mut best: Option<(usize, usize)> = None;
    let mut pos: usize = 0;
    proof {
        assert(cs@.subrange(0, n as int) =~= listing@);
    }
    while pos < n
        invariant
            pos <= n,
            n == cs@.len(),
            cs@ == listing@,
            prefix@ == runtime_prefix(),
            best matches Some((a, b)) ==> a <= b <= n,
            version_of_lines(split_lines(listing@)) == match version_of_lines(
                split_lines(cs@.subrange(pos as int, n as int)),
            ) {
                Some(v) => Some(v),
                None => match best {
                    Some((a, b)) => Some(cs@.subrange(a as int, b as int)),
                    None => None,
                },
            },
        decreases n - pos,
    {
        let (start, end, next) = next_line(&cs, pos);
        let ghost line = cs@.subrange(start as int, end as int);
        let ghost rest_lines = split_lines(cs@.subrange(next as int, n as int));
        proof {
            let ls = seq![line] + rest_lines;
            assert(ls.subrange(1, ls.len() as int) =~= rest_lines);
            assert(ls[0] == line);
        }
        if starts_with_at(&cs, start, end, &prefix) {
            let from = start + prefix.len();
            let k = skip_ws_from(&cs, from, end);
            proof {
                assert(line.subrange(prefix@.len() as int, line.len() as int) =~= cs@.subrange(
                    from as int,
                    end as int,
                ));
            }
            if k < end {
                let t = token_end(&cs, k, end);
                proof {
                    assert(cs@.subrange(k as int, end as int).len() > 0);
                }
                best = Some((k, t));
            }
        }
        pos = next;
    }
    proof {
        assert(cs@.subrange(n as int, n as int) =~= Seq::<char>::empty());
    }
    match best {
        Some((a, b)) => listing.substring_char(a, b).to_owned(),
        None => "8.0.0".to_owned(),
    }
}

/// The SDK base paths that the output of `dotnet --info` names (the trimmed text after
/// `Base Path:` on each trimmed line), in order.
pub fn base_paths_from_info(info: &str) -> (r: Vec<String>)
    ensures
        r@.map_values(|s: String| s@) == base_paths_of_lines(split_lines(info@)),
{
    let cs = chars_of(info);
    let prefix = chars_of("Base Path:");
    let n = cs.len();
    let mut out: Vec<String> = Vec::new();
    let mut pos: usize = 0;
    proof {
        assert(cs@.subrange(0, n as int) =~= info@);
        assert(out@.map_values(|s: String| s@) =~= Seq::<Seq<char>>::empty());
    }
    while pos < n
        invariant
            pos <= n,
            n == cs@.len(),
            cs@ == info@,
            prefix@ == base_path_prefix(),
            base_paths_of_lines(split_lines(info@)) == out@.map_values(|s: String| s@)
                + base_paths_of_lines(split_lines(cs@.subrange(pos as int, n as int))),
        decreases n - pos,
    {
        let (start, end, next) = next_line(&cs, pos);
        let ghost line = cs@.subrange(start as int, end as int);
        let ghost rest_lines = split_lines(cs@.subrange(next as int, n as int));
        let ghost before = out@.map_values(|s: String| s@);
        proof {
            let ls = seq![line] + rest_lines;
            assert(ls.subrange(1, ls.len() as int) =~= rest_lines);
            assert(ls[0] == line);
        }
        let a = skip_ws_from(&cs, start, end);
        let b = skip_ws_end_from(&cs, a, end);
        proof {
            assert(skip_ws(line) == cs@.subrange(a as int, end as int));
            assert(trim(line) == cs@.subrange(a as int, b as int));
        }
        if starts_with_at(&cs, a, b, &prefix) {
            let from = a + prefix.len();
            let c = skip_ws_from(&cs, from, b);
            let d = skip_ws_end_from(&cs, c, b);
            proof {
                let t = cs@.subrange(a as int, b as int);
                assert(t.subrange(prefix@.len() as int, t.len() as int) =~= cs@.subrange(
                    from as int,
                    b as int,
                ));
            }
            let p = info.substring_char(c, d).to_owned();
            proof {
                assert(out@.push(p).map_values(|s: String| s@) =~= before.push(p@));
            }
            out.push(p);
            proof {
                assert(out@.map_values(|s: String| s@) + base_paths_of_lines(rest_lines) =~= before
                    + (seq![p@] + base_paths_of_lines(rest_lines)));
            }
        }
        pos = next;
    }
    proof {
        assert(cs@.subrange(n as int, n as int) =~= Seq::<char>::empty());
        assert(out@.map_values(|s: String| s@) + Seq::<Seq<char>>::empty() =~= out@.map_values(
            |s: String| s@,
        ));
    }
    out
}

} // verus!
