//! Compiles the restricted wildcard syntax of Debian copyright files
//! (`*`, `?` and backslash escapes) and matches compiled patterns.
//!
//! A `*` is ungreedy: it stops at the first occurrence of the first
//! character of the literal that follows it, and the matcher never goes
//! back. A pattern must consume the whole subject to match it.

use vstd::prelude::*;
use crate::text::{chars_of, find_char, find_from};

verus! {

/// One piece of a compiled pattern, as contracts see it.
pub enum Segment {
    Literal(Seq<char>),
    Star,
    Question,
}

/// Why a pattern could not be compiled.
#[derive(Debug, Clone, Copy, PartialEq, Eq, Structural)]
pub enum GlobError {
    /// A backslash was followed by a character other than `\`, `*` or `?`.
    BadEscape(char),
    /// A `*` directly follows a `*`, or a `?` directly follows a `*`.
    StarNextToWildcard,
}

/// What the compiler knows after reading a prefix of the pattern text.
pub struct ScanState {
    pub segs: Seq<Segment>,
    pub lit: Seq<char>,
    pub escape: bool,
}

/// `segs` with the pending literal `lit` appended, if it is not empty.
pub open spec fn flush(segs: Seq<Segment>, lit: Seq<char>) -> Seq<Segment> {
    if lit.len() == 0 {
        segs
    } else {
        segs.push(Segment::Literal(lit))
    }
}

/// May a wildcard be pushed after `segs`? Not right after a `*`.
pub open spec fn wildcard_ok(segs: Seq<Segment>) -> bool {
    segs.len() == 0 || !(segs.last() is Star)
}

/// The characters that a backslash may escape.
pub open spec fn is_special(c: char) -> bool {
    c == '\\' || c == '*' || c == '?'
}

/// The compiler's state after reading `c` in state `st`.
pub open spec fn scan_step(st: ScanState, c: char) -> Result<ScanState, GlobError> {
    if st.escape {
        if is_special(c) {
            Ok(ScanState { segs: st.segs, lit: st.lit.push(c), escape: false })
        } else {
            Err(GlobError::BadEscape(c))
        }
    } else if c == '\\' {
        Ok(ScanState { segs: st.segs, lit: st.lit, escape: true })
    } else if c == '*' || c == '?' {
        let segs = flush(st.segs, st.lit);
        if wildcard_ok(segs) {
            let w = if c == '*' {
                Segment::Star
            } else {
                Segment::Question
            };
            Ok(ScanState { segs: segs.push(w), lit: seq![], escape: false })
        } else {
            Err(GlobError::StarNextToWildcard)
        }
    } else {
        Ok(ScanState { segs: st.segs, lit: st.lit.push(c), escape: false })
    }
}

/// The compiler's state after reading the first `n` characters of `s`.
pub open spec fn scan(s: Seq<char>, n: nat) -> Result<ScanState, GlobError>
    decreases n,
{
    if n == 0 {
        Ok(ScanState { segs: seq![], lit: seq![], escape: false })
    } else {
        match scan(s, (n - 1) as nat) {
            Ok(st) => scan_step(st, s[n - 1]),
            Err(e) => Err(e),
        }
    }
}

/// The segments that the pattern text `s` compiles to. A trailing lone
/// backslash is dropped.
pub open spec fn compile_spec(s: Seq<char>) -> Result<Seq<Segment>, GlobError> {
    match scan(s, s.len()) {
        Ok(st) => Ok(flush(st.segs, st.lit)),
        Err(e) => Err(e),
    }
}

/// Does `segs[k..]` match `s[p..]` to its end?
pub open spec fn match_at(segs: Seq<Segment>, k: int, s: Seq<char>, p: int) -> bool
    decreases segs.len() - k,
{
    if k < 0 || k >= segs.len() {
        p == s.len()
    } else {
        match segs[k] {
            Segment::Literal(l) => p + l.len() <= s.len() && s.subrange(p, p + l.len()) == l
                && match_at(segs, k + 1, s, p + l.len()),
            Segment::Question => p < s.len() && match_at(segs, k + 1, s, p + 1),
            Segment::Star => if k + 1 >= segs.len() {
                true
            } else {
                match segs[k + 1] {
                    Segment::Literal(l) => l.len() > 0 && find_from(s, l[0], p) >= 0
                        && match_at(segs, k + 1, s, find_from(s, l[0], p)),
                    _ => false,
                }
            },
        }
    }
}

/// Does the pattern `segs` match the whole of `s`? An empty pattern
/// matches nothing.
pub open spec fn glob_matches(segs: Seq<Segment>, s: Seq<char>) -> bool {
    segs.len() > 0 && match_at(segs, 0, s, 0)
}

/// The well-formedness that the compiler guarantees: literals are not
/// empty, and a `*` is the last segment or followed by a literal.
pub open spec fn segments_wf(segs: Seq<Segment>) -> bool {
    &&& forall|k: int| 0 <= k < segs.len() ==> (#[trigger] segs[k] matches Segment::Literal(l)
        ==> l.len() > 0)
    &&& forall|k: int|
        0 <= k < segs.len() - 1 ==> (#[trigger] segs[k] is Star ==> segs[k + 1] is Literal)
}

/// Once the compiler fails, reading more text keeps the same error.
proof fn lemma_scan_error_persists(s: Seq<char>, n: nat, m: nat)
    requires
        n <= m,
        scan(s, n) is Err,
    ensures
        scan(s, m) == scan(s, n),
    decreases m - n,
{
    if n < m {
        lemma_scan_error_persists(s, n, (m - 1) as nat);
    }
}


proof fn lemma_flush_wf(segs: Seq<Segment>, lit: Seq<char>)
    requires
        segments_wf(segs),
    ensures
        segments_wf(flush(segs, lit)),
{
    if lit.len() > 0 {
        let r = segs.push(Segment::Literal(lit));
        assert forall|k: int| 0 <= k < r.len() - 1 implies (#[trigger] r[k] is Star ==> r[k
            + 1] is Literal) by {
            if k < segs.len() - 1 {
                assert(r[k] == segs[k] && r[k + 1] == segs[k + 1]);
            }
        }
        assert forall|k: int| 0 <= k < r.len() implies (#[trigger] r[k] matches Segment::Literal(
            l,
        ) ==> l.len() > 0) by {
            if k < segs.len() {
                assert(r[k] == segs[k]);
            }
        }
    }
}

/// Every state the compiler reaches holds well-formed segments.
proof fn lemma_scan_wf(s: Seq<char>, n: nat)
    requires
        n <= s.len(),
        scan(s, n) is Ok,
    ensures
        segments_wf(scan(s, n)->Ok_0.segs),
    decreases n,
{
    if n > 0 {
        lemma_scan_wf(s, (n - 1) as nat);
        let st = scan(s, (n - 1) as nat)->Ok_0;
        let c = s[n - 1];
        if !st.escape && (c == '*' || c == '?') {
            let segs = flush(st.segs, st.lit);
            lemma_flush_wf(st.segs, st.lit);
            let w = if c == '*' {
                Segment::Star
            } else {
                Segment::Question
            };
            let r = segs.push(w);
            assert forall|k: int| 0 <= k < r.len() - 1 implies (#[trigger] r[k] is Star ==> r[k
                + 1] is Literal) by {
                assert(r[k] == segs[k]);
                if k < segs.len() - 1 {
                    assert(r[k + 1] == segs[k + 1]);
                }
            }
            assert forall|k: int| 0 <= k < r.len() implies (#[trigger] r[k] matches Segment::Literal(
                l,
            ) ==> l.len() > 0) by {
                if k < segs.len() {
                    assert(r[k] == segs[k]);
                }
            }
        }
    }
}

/// A compiled pattern never has an empty literal, and a `*` in it is the
/// last segment or followed by a literal: adjacent wildcards are refused
/// when the pattern is compiled, never when it is matched.
pub proof fn lemma_compiled_wf(s: Seq<char>)
    requires
        compile_spec(s) is Ok,
    ensures
        segments_wf(compile_spec(s)->Ok_0),
{
    lemma_scan_wf(s, s.len());
    let st = scan(s, s.len())->Ok_0;
    lemma_flush_wf(st.segs, st.lit);
}

/// The text of one segment when nothing in it is escaped.
pub open spec fn seg_text(g: Segment) -> Seq<char> {
    match g {
        Segment::Literal(l) => l,
        Segment::Star => seq!['*'],
        Segment::Question => seq!['?'],
    }
}

/// The segments written back out as pattern text, without escapes.
pub open spec fn flat(segs: Seq<Segment>) -> Seq<char>
    decreases segs.len(),
{
    if segs.len() == 0 {
        seq![]
    } else {
        seg_text(segs[0]) + flat(segs.drop_first())
    }
}

/// Every position of `pat` is `?` or the character of `s` there.
pub open spec fn agrees(pat: Seq<char>, s: Seq<char>) -> bool {
    pat.len() == s.len() && forall|i: int| 0 <= i < pat.len() ==> #[trigger] pat[i] == '?' || pat[i]
        == s[i]
}

pub open spec fn no_special(s: Seq<char>) -> bool {
    forall|i: int| 0 <= i < s.len() ==> !is_special(#[trigger] s[i])
}

/// Literals hold no `?` and there is no `*`.
pub open spec fn star_free(segs: Seq<Segment>) -> bool {
    forall|k: int|
        0 <= k < segs.len() ==> match #[trigger] segs[k] {
            Segment::Literal(l) => forall|i: int| 0 <= i < l.len() ==> l[i] != '?',
            Segment::Star => false,
            Segment::Question => true,
        }
}

proof fn lemma_flat_push(segs: Seq<Segment>, g: Segment)
    ensures
        flat(segs.push(g)) == flat(segs) + seg_text(g),
    decreases segs.len(),
{
    if segs.len() == 0 {
        assert(segs.push(g).drop_first() =~= seq![]);
        assert(flat(segs.push(g).drop_first()) == Seq::<char>::empty());
        assert(flat(segs) == Seq::<char>::empty());
        assert(flat(segs.push(g)) =~= flat(segs) + seg_text(g));
    } else {
        assert(segs.push(g).drop_first() =~= segs.drop_first().push(g));
        lemma_flat_push(segs.drop_first(), g);
        assert(flat(segs.push(g)) =~= flat(segs) + seg_text(g));
    }
}

/// Reading characters that need no escape only grows the literal.
proof fn lemma_literal_run(s: Seq<char>, a: nat, b: nat)
    requires
        a <= b <= s.len(),
        scan(s, a) is Ok,
        !scan(s, a)->Ok_0.escape,
        forall|i: int| a <= i < b ==> !is_special(#[trigger] s[i]),
    ensures
        scan(s, b) == Ok::<ScanState, GlobError>(
            ScanState {
                segs: scan(s, a)->Ok_0.segs,
                lit: scan(s, a)->Ok_0.lit + s.subrange(a as int, b as int),
                escape: false,
            },
        ),
    decreases b - a,
{
    let st = scan(s, a)->Ok_0;
    if b == a {
        assert(st.lit + s.subrange(a as int, b as int) =~= st.lit);
    } else {
        lemma_literal_run(s, a, (b - 1) as nat);
        assert(st.lit + s.subrange(a as int, b as int) =~= (st.lit + s.subrange(
            a as int,
            b - 1,
        )).push(s[b - 1]));
    }
}

/// A pattern with no `*` and no `\` compiles to star-free segments
/// that spell it out.
proof fn lemma_scan_star_free(q: Seq<char>, n: nat)
    requires
        n <= q.len(),
        forall|i: int| 0 <= i < q.len() ==> #[trigger] q[i] != '*' && q[i] != '\\',
    ensures
        scan(q, n) is Ok,
        !scan(q, n)->Ok_0.escape,
        star_free(scan(q, n)->Ok_0.segs),
        forall|i: int|
            0 <= i < scan(q, n)->Ok_0.lit.len() ==> #[trigger] scan(q, n)->Ok_0.lit[i] != '?',
        flat(scan(q, n)->Ok_0.segs) + scan(q, n)->Ok_0.lit == q.subrange(0, n as int),
    decreases n,
{
    if n == 0 {
        assert(flat(seq![]) + seq![] =~= q.subrange(0, 0));
    } else {
        lemma_scan_star_free(q, (n - 1) as nat);
        let st = scan(q, (n - 1) as nat)->Ok_0;
        let c = q[n - 1];
        if c == '?' {
            let segs = flush(st.segs, st.lit);
            if st.lit.len() > 0 {
                lemma_flat_push(st.segs, Segment::Literal(st.lit));
            }
            assert(flat(segs) == flat(st.segs) + st.lit) by {
                if st.lit.len() == 0 {
                    assert(flat(st.segs) + st.lit =~= flat(st.segs));
                }
            }
            lemma_flat_push(segs, Segment::Question);
            assert(star_free(segs.push(Segment::Question))) by {
                assert forall|k: int| 0 <= k < segs.push(Segment::Question).len() implies match #[trigger] segs.push(Segment::Question)[k] {
                    Segment::Literal(l) => forall|i: int| 0 <= i < l.len() ==> l[i] != '?',
                    Segment::Star => false,
                    Segment::Question => true,
                } by {
                    if k < st.segs.len() {
                        assert(segs.push(Segment::Question)[k] == st.segs[k]);
                    }
                }
            }
            assert(flat(segs.push(Segment::Question)) + seq![] =~= q.subrange(0, n as int));
        } else {
            assert(flat(st.segs) + st.lit.push(c) =~= q.subrange(0, n as int));
        }
    }
}

/// Star-free segments match any subject that agrees with their text.
proof fn lemma_star_free_match(segs: Seq<Segment>, k: int, s: Seq<char>, p: int)
    requires
        0 <= k <= segs.len(),
        0 <= p <= s.len(),
        star_free(segs),
        agrees(flat(segs.subrange(k, segs.len() as int)), s.subrange(p, s.len() as int)),
    ensures
        match_at(segs, k, s, p),
    decreases segs.len() - k,
{
    let rest = segs.subrange(k, segs.len() as int);
    if k < segs.len() {
        assert(rest.drop_first() =~= segs.subrange(k + 1, segs.len() as int));
        let t = flat(segs.subrange(k + 1, segs.len() as int));
        let sub = s.subrange(p, s.len() as int);
        match segs[k] {
            Segment::Literal(l) => {
                assert(flat(rest) == l + t);
                assert forall|i: int| 0 <= i < l.len() implies s.subrange(p, p + l.len())[i]
                    == l[i] by {
                    assert((l + t)[i] == l[i]);
                    assert(sub[i] == s[p + i]);
                }
                assert(s.subrange(p, p + l.len()) =~= l);
                assert forall|i: int| 0 <= i < t.len() implies #[trigger] t[i] == '?' || t[i]
                    == s.subrange(p + l.len(), s.len() as int)[i] by {
                    assert((l + t)[l.len() + i] == t[i]);
                    assert(sub[l.len() + i] == s[p + l.len() + i]);
                }
                lemma_star_free_match(segs, k + 1, s, p + l.len());
            },
            Segment::Question => {
                assert(flat(rest) == seq!['?'] + t);
                assert forall|i: int| 0 <= i < t.len() implies #[trigger] t[i] == '?' || t[i]
                    == s.subrange(p + 1, s.len() as int)[i] by {
                    assert((seq!['?'] + t)[1 + i] == t[i]);
                    assert(sub[1 + i] == s[p + 1 + i]);
                }
                lemma_star_free_match(segs, k + 1, s, p + 1);
            },
            Segment::Star => {},
        }
    } else {
        assert(rest =~= seq![]);
    }
}

/// A pattern with no wildcard and no escape compiles to the literal
/// itself, which matches exactly that text.
pub proof fn lemma_identity(s: Seq<char>)
    requires
        s.len() > 0,
        no_special(s),
    ensures
        compile_spec(s) == Ok::<Seq<Segment>, GlobError>(seq![Segment::Literal(s)]),
        glob_matches(seq![Segment::Literal(s)], s),
{
    lemma_literal_run(s, 0, s.len());
    assert(seq![] + s.subrange(0, s.len() as int) =~= s);
    assert(s.subrange(0, s.len() as int) =~= s);
    assert(match_at(seq![Segment::Literal(s)], 1, s, s.len() as int));
}

/// Replacing any characters of a plain text by `?` gives a pattern that
/// still matches the text.
pub proof fn lemma_question_substitution(s: Seq<char>, q: Seq<char>)
    requires
        s.len() > 0,
        no_special(s),
        q.len() == s.len(),
        forall|i: int| 0 <= i < q.len() ==> #[trigger] q[i] == '?' || q[i] == s[i],
    ensures
        compile_spec(q) is Ok,
        glob_matches(compile_spec(q)->Ok_0, s),
{
    assert forall|i: int| 0 <= i < q.len() implies #[trigger] q[i] != '*' && q[i] != '\\' by {
        assert(!is_special(s[i]));
    }
    lemma_scan_star_free(q, q.len());
    let st = scan(q, q.len())->Ok_0;
    let segs = flush(st.segs, st.lit);
    assert(q.subrange(0, q.len() as int) =~= q);
    if st.lit.len() > 0 {
        lemma_flat_push(st.segs, Segment::Literal(st.lit));
        assert(star_free(segs)) by {
            assert forall|k: int| 0 <= k < segs.len() implies match #[trigger] segs[k] {
                Segment::Literal(l) => forall|i: int| 0 <= i < l.len() ==> l[i] != '?',
                Segment::Star => false,
                Segment::Question => true,
            } by {
                if k < st.segs.len() {
                    assert(segs[k] == st.segs[k]);
                }
            }
        }
    } else {
        assert(flat(st.segs) + st.lit =~= flat(st.segs));
    }
    assert(flat(segs) == q);
    assert(segs.subrange(0, segs.len() as int) =~= segs);
    assert(s.subrange(0, s.len() as int) =~= s);
    assert(segs.len() > 0) by {
        if segs.len() == 0 {
            assert(flat(segs) =~= seq![]);
        }
    }
    lemma_star_free_match(segs, 0, s, 0);
}

proof fn lemma_find_from_first(s: Seq<char>, c: char, i: int, j: int)
    requires
        0 <= i <= j < s.len(),
        s[j] == c,
        forall|t: int| i <= t < j ==> s[t] != c,
    ensures
        find_from(s, c, i) == j,
    decreases j - i,
{
    if i < j {
        lemma_find_from_first(s, c, i + 1, j);
    }
}

/// `front*back` matches `front + center + back` when the star can stop at
/// `back`: `center` holds no copy of the first character of `back`.
pub proof fn lemma_star_splice(front: Seq<char>, center: Seq<char>, back: Seq<char>)
    requires
        no_special(front),
        no_special(back),
        back.len() > 0 ==> forall|i: int| 0 <= i < center.len() ==> center[i] != back[0],
    ensures
        compile_spec(front + seq!['*'] + back) is Ok,
        glob_matches(compile_spec(front + seq!['*'] + back)->Ok_0, front + center + back),
{
    let q = front + seq!['*'] + back;
    let s = front + center + back;
    let a: int = front.len() as int;
    lemma_literal_run(q, 0, a as nat);
    assert(q.subrange(0, a) =~= front);
    assert(seq![] + front =~= front);
    let st = scan(q, a as nat)->Ok_0;
    assert(st.segs =~= seq![]);
    let segs1 = flush(seq![], front).push(Segment::Star);
    assert(q[a] == '*');
    assert(scan(q, (a + 1) as nat) == Ok::<ScanState, GlobError>(
        ScanState { segs: segs1, lit: seq![], escape: false },
    ));
    assert forall|i: int| a + 1 <= i < q.len() implies !is_special(#[trigger] q[i]) by {
        assert(q[i] == back[i - a - 1]);
    }
    lemma_literal_run(q, (a + 1) as nat, q.len());
    assert(q.subrange(a + 1, q.len() as int) =~= back);
    assert(seq![] + back =~= back);
    let segs = flush(segs1, back);
    assert(compile_spec(q) == Ok::<Seq<Segment>, GlobError>(segs));
    let ks: int = if a == 0 {
        0
    } else {
        1
    };
    assert(segs[ks] == Segment::Star);
    // the literal `front`, when present, is matched first
    if a > 0 {
        assert(s.subrange(0, a) =~= front);
    }
    assert(match_at(segs, 0, s, 0) == match_at(segs, ks, s, a));
    if back.len() > 0 {
        let j: int = a + center.len();
        assert(s[j] == back[0]);
        assert forall|t: int| a <= t < j implies s[t] != back[0] by {
            assert(s[t] == center[t - a]);
        }
        lemma_find_from_first(s, back[0], a, j);
        assert(segs[ks + 1] == Segment::Literal(back));
        assert(s.subrange(j, j + back.len() as int) =~= back);
        assert(match_at(segs, ks + 2, s, j + back.len() as int));
        assert(match_at(segs, ks + 1, s, j));
    }
}

/// A `*` followed directly by `*` or `?` makes compilation fail, whatever
/// comes after it.
pub proof fn lemma_adjacent_star_rejected(front: Seq<char>, c: char, back: Seq<char>)
    requires
        no_special(front),
        c == '*' || c == '?',
    ensures
        compile_spec(front + seq!['*', c] + back) == Err::<Seq<Segment>, GlobError>(
            GlobError::StarNextToWildcard,
        ),
{
    let q = front + seq!['*', c] + back;
    let a: int = front.len() as int;
    assert forall|i: int| 0 <= i < a implies !is_special(#[trigger] q[i]) by {
        assert(q[i] == front[i]);
    }
    lemma_literal_run(q, 0, a as nat);
    assert(seq![] + q.subrange(0, a) =~= front);
    let segs1 = flush(scan(q, a as nat)->Ok_0.segs, front).push(Segment::Star);
    assert(q[a] == '*' && q[a + 1] == c);
    assert(scan(q, (a + 1) as nat) == Ok::<ScanState, GlobError>(
        ScanState { segs: segs1, lit: seq![], escape: false },
    ));
    assert(flush(segs1, seq![]) == segs1);
    assert(scan(q, (a + 2) as nat) == Err::<ScanState, GlobError>(GlobError::StarNextToWildcard));
    lemma_scan_error_persists(q, (a + 2) as nat, q.len());
}

/// `dir/*` matches every path below `dir`.
pub proof fn lemma_path_prefix(dir: Seq<char>, rest: Seq<char>)
    requires
        no_special(dir),
    ensures
        compile_spec(dir + seq!['/', '*']) is Ok,
        glob_matches(compile_spec(dir + seq!['/', '*'])->Ok_0, dir + seq!['/'] + rest),
{
    let q = dir + seq!['/', '*'];
    let p = dir + seq!['/'];
    let s = p + rest;
    let a = p.len();
    assert forall|i: int| 0 <= i < a implies !is_special(#[trigger] q[i]) by {
        if i < dir.len() {
            assert(q[i] == dir[i]);
        }
    }
    lemma_literal_run(q, 0, a);
    assert(q.subrange(0, a as int) =~= p);
    assert(seq![] + p =~= p);
    assert(scan(q, a)->Ok_0.segs =~= seq![]);
    assert(q[a as int] == '*');
    let segs = seq![Segment::Literal(p)].push(Segment::Star);
    assert(seq![].push(Segment::Literal(p)) =~= seq![Segment::Literal(p)]);
    assert(scan(q, a + 1) == Ok::<ScanState, GlobError>(
        ScanState { segs, lit: seq![], escape: false },
    ));
    assert(compile_spec(q) == Ok::<Seq<Segment>, GlobError>(segs));
    assert(s.subrange(0, a as int) =~= p);
    assert(match_at(segs, 1, s, a as int));
}

#[derive(Debug, Clone)]
/// Executable form of a [`Segment`].
pub enum GlobSegment {
    Literal(Vec<char>),
    Star,
    Question,
}

impl View for GlobSegment {
    type V = Segment;

    open spec fn view(&self) -> Segment {
        match self {
            GlobSegment::Literal(l) => Segment::Literal(l@),
            GlobSegment::Star => Segment::Star,
            GlobSegment::Question => Segment::Question,
        }
    }
}

pub open spec fn segs_view(v: Seq<GlobSegment>) -> Seq<Segment> {
    v.map_values(|g: GlobSegment| g@)
}

/// Compiled pattern, recognizing literal text, `*` and `?`.
#[derive(Debug, Clone)]
pub struct Glob {
    segments: Vec<GlobSegment>,
}

impl View for Glob {
    type V = Seq<Segment>;

    closed spec fn view(&self) -> Seq<Segment> {
        segs_view(self.segments@)
    }
}

/// `v[p..]` starts with `l`.
fn has_prefix_at(v: &Vec<char>, p: usize, l: &Vec<char>) -> (r: bool)
    requires
        p <= v@.len(),
    ensures
        r == (p + l@.len() <= v@.len() && v@.subrange(p as int, p + l@.len()) == l@),
{
    let m = v.len();
    if l.len() > m - p {
        return false;
    }
    let mut j: usize = 0;
    while j < l.len()
        invariant
            m == v@.len(),
            p + l@.len() <= m,
            j <= l@.len(),
            forall|t: int| 0 <= t < j ==> v@[p + t] == l@[t],
        decreases l@.len() - j,
    {
        if v[p + j] != l[j] {
            assert(v@.subrange(p as int, p + l@.len())[j as int] != l@[j as int]);
            return false;
        }
        j += 1;
    }
    assert(v@.subrange(p as int, p + l@.len()) =~= l@);
    true
}

impl Glob {
    /// The compiled segments satisfy the compiler's guarantees.
    pub closed spec fn wf(&self) -> bool {
        segments_wf(self@)
    }

    /// Compile the pattern text `s`.
    pub fn compile(s: &str) -> (r: Result<Glob, GlobError>)
        ensures
            match r {
                Ok(g) => compile_spec(s@) == Ok::<Seq<Segment>, GlobError>(g@) && g.wf(),
                Err(e) => compile_spec(s@) == Err::<Seq<Segment>, GlobError>(e),
            },
    {
        let cs = chars_of(s);
        let mut segments: Vec<GlobSegment> = Vec::new();
        let mut lit: Vec<char> = Vec::new();
        let mut escape = false;
        let mut i: usize = 0;
        assert(segs_view(segments@) =~= seq![]);
        assert(lit@ =~= seq![]);
        while i < cs.len()
            invariant
                i <= cs@.len(),
                cs@ == s@,
                scan(s@, i as nat) == Ok::<ScanState, GlobError>(
                    ScanState { segs: segs_view(segments@), lit: lit@, escape },
                ),
            decreases cs@.len() - i,
        {
            let c = cs[i];
            if escape {
                if c == '\\' || c == '*' || c == '?' {
                    lit.push(c);
                    escape = false;
                } else {
                    proof {
                        lemma_scan_error_persists(s@, (i + 1) as nat, s@.len());
                    }
                    return Err(GlobError::BadEscape(c));
                }
            } else if c == '\\' {
                escape = true;
            } else if c == '*' || c == '?' {
                if lit.len() > 0 {
                    let ghost before = segments@;
                    segments.push(GlobSegment::Literal(lit));
                    assert(segs_view(segments@) =~= segs_view(before).push(Segment::Literal(lit@)));
                    lit = Vec::new();
                }
                let prev_ok = if segments.len() == 0 {
                    true
                } else {
                    match &segments[segments.len() - 1] {
                        GlobSegment::Star => false,
                        _ => true,
                    }
                };
                if !prev_ok {
                    proof {
                        lemma_scan_error_persists(s@, (i + 1) as nat, s@.len());
                    }
                    return Err(GlobError::StarNextToWildcard);
                }
                let ghost before = segments@;
                let w = if c == '*' {
                    GlobSegment::Star
                } else {
                    GlobSegment::Question
                };
                segments.push(w);
                assert(segs_view(segments@) =~= segs_view(before).push(w@));
            } else {
                lit.push(c);
            }
            i += 1;
            assert(cs@.subrange(0, i as int) == s@.subrange(0, i as int));
        }
        if lit.len() > 0 {
            let ghost before = segments@;
            segments.push(GlobSegment::Literal(lit));
            assert(segs_view(segments@) =~= segs_view(before).push(Segment::Literal(lit@)));
        }
        proof {
            lemma_compiled_wf(s@);
        }
        Ok(Glob { segments })
    }

    /// Check whether this glob matches the whole of `s`.
    pub fn matches(&self, s: &str) -> (r: bool)
        ensures
            r == glob_matches(self@, s@),
    {
        let n = self.segments.len();
        if n == 0 {
            return false;
        }
        let cs = chars_of(s);
        let m = cs.len();
        let ghost segs = self@;
        let mut k: usize = 0;
        let mut p: usize = 0;
        while k < n
            invariant
                n == self.segments@.len(),
                segs == segs_view(self.segments@),
                cs@ == s@,
                m == cs@.len(),
                k <= n,
                p <= cs@.len(),
                match_at(segs, 0, s@, 0) == match_at(segs, k as int, s@, p as int),
            decreases n - k,
        {
            match &self.segments[k] {
                GlobSegment::Literal(l) => {
                    if !has_prefix_at(&cs, p, l) {
                        return false;
                    }
                    p = p + l.len();
                },
                GlobSegment::Question => {
                    if p >= cs.len() {
                        return false;
                    }
                    p = p + 1;
                },
                GlobSegment::Star => {
                    if k + 1 >= n {
                        return true;
                    }
                    match &self.segments[k + 1] {
                        GlobSegment::Literal(l) => {
                            if l.len() == 0 {
                                return false;
                            }
                            match find_char(&cs, l[0], p) {
                                Some(j) => {
                                    p = j;
                                },
                                None => {
                                    return false;
                                },
                            }
                        },
                        _ => {
                            return false;
                        },
                    }
                },
            }
            k += 1;
        }
        p == cs.len()
    }

    /// Whether this glob has no segments; such a glob matches nothing.
    pub fn is_empty(&self) -> (r: bool)
        ensures
            r == (self@.len() == 0),
    {
        self.segments.len() == 0
    }
}

impl std::str::FromStr for Glob {
    type Err = GlobError;

    /// Compiles the pattern text `s`, as [`Glob::compile`] does.
    fn from_str(s: &str) -> (r: Result<Glob, GlobError>)
        ensures
            match r {
                Ok(g) => compile_spec(s@) == Ok::<Seq<Segment>, GlobError>(g@) && g.wf(),
                Err(e) => compile_spec(s@) == Err::<Seq<Segment>, GlobError>(e),
            },
    {
        Glob::compile(s)
    }
}

} // verus!
