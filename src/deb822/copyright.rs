//! The exclusion policy of a Debian copyright file: every pattern listed
//! under `Files-Excluded`, in any stanza.

use vstd::prelude::*;
use crate::deb822::{
    Deb822File, ParseError, StanzaV, field_lines, find_field, find_name, parse_spec, strings_view,
};
use crate::glob::{Glob, GlobError, Segment, compile_spec, glob_matches};
use crate::text::{chars_of, string_of};

verus! {

/// The name of the field that lists excluded files.
pub open spec fn files_excluded() -> Seq<char> {
    "Files-Excluded"@
}

/// ASCII whitespace, as `str::split_ascii_whitespace` understands it.
pub open spec fn is_ascii_ws(c: char) -> bool {
    c == ' ' || c == '\t' || c == '\n' || c == '\x0C' || c == '\r'
}

/// Tokens completed, and the token being read, after the first `n`
/// characters of `l`.
pub open spec fn tokens_upto(l: Seq<char>, n: nat) -> (Seq<Seq<char>>, Seq<char>)
    decreases n,
{
    if n == 0 {
        (seq![], seq![])
    } else {
        let (done, cur) = tokens_upto(l, (n - 1) as nat);
        if !is_ascii_ws(l[n - 1]) {
            (done, cur.push(l[n - 1]))
        } else if cur.len() == 0 {
            (done, cur)
        } else {
            (done.push(cur), seq![])
        }
    }
}

/// The non-empty runs of non-whitespace characters of `l`, in order.
pub open spec fn line_tokens(l: Seq<char>) -> Seq<Seq<char>> {
    let (done, cur) = tokens_upto(l, l.len());
    if cur.len() == 0 {
        done
    } else {
        done.push(cur)
    }
}

pub open spec fn lines_tokens(ls: Seq<Seq<char>>) -> Seq<Seq<char>>
    decreases ls.len(),
{
    if ls.len() == 0 {
        seq![]
    } else {
        lines_tokens(ls.drop_last()) + line_tokens(ls.last())
    }
}

/// The pattern tokens of one stanza's `Files-Excluded` field, if any.
pub open spec fn stanza_tokens(st: StanzaV) -> Seq<Seq<char>> {
    let j = find_name(st, files_excluded(), 0);
    if 0 <= j < st.len() {
        lines_tokens(field_lines(st[j].1))
    } else {
        seq![]
    }
}

/// The pattern tokens of a whole document, in order.
pub open spec fn doc_tokens(d: Seq<StanzaV>) -> Seq<Seq<char>>
    decreases d.len(),
{
    if d.len() == 0 {
        seq![]
    } else {
        doc_tokens(d.drop_last()) + stanza_tokens(d.last())
    }
}

/// Compiles each token in order, dropping empty patterns; the first
/// failure, with its token, ends it.
pub open spec fn compile_all(toks: Seq<Seq<char>>) -> Result<
    Seq<Seq<Segment>>,
    (Seq<char>, GlobError),
>
    decreases toks.len(),
{
    if toks.len() == 0 {
        Ok(seq![])
    } else {
        match compile_all(toks.drop_last()) {
            Err(e) => Err(e),
            Ok(gs) => match compile_spec(toks.last()) {
                Err(e) => Err((toks.last(), e)),
                Ok(g) => Ok(
                    if g.len() == 0 {
                        gs
                    } else {
                        gs.push(g)
                    },
                ),
            },
        }
    }
}

/// The patterns of the exclusion policy of document `d`.
pub open spec fn policy_spec(d: Seq<StanzaV>) -> Result<Seq<Seq<Segment>>, (Seq<char>, GlobError)> {
    compile_all(doc_tokens(d))
}

/// A token of `Files-Excluded` that is not a valid pattern.
#[derive(Debug, Clone)]
pub struct ExtractError {
    pub token: String,
    pub error: GlobError,
}

/// Why a copyright file could not be read.
#[derive(Debug, Clone)]
pub enum CopyrightError {
    Parse(ParseError),
    Extract(ExtractError),
}

/// The exclusion policy: every non-empty pattern of `Files-Excluded`,
/// across all stanzas, in the order of the text.
#[derive(Clone, Debug)]
pub struct CopyrightFile {
    excludes: Vec<Glob>,
}

pub open spec fn globs_view(v: Seq<Glob>) -> Seq<Seq<Segment>> {
    v.map_values(|g: Glob| g@)
}

impl View for CopyrightFile {
    type V = Seq<Seq<Segment>>;

    closed spec fn view(&self) -> Seq<Seq<Segment>> {
        globs_view(self.excludes@)
    }
}

/// Splits `l` on ASCII whitespace.
fn split_tokens(l: &Vec<char>) -> (r: Vec<String>)
    ensures
        strings_view(r@) == line_tokens(l@),
{
    let mut out: Vec<String> = Vec::new();
    let mut start: usize = 0;
    let mut i: usize = 0;
    assert(strings_view(out@) =~= seq![]);
    assert(l@.subrange(0, 0) =~= seq![]);
    while i < l.len()
        invariant
            start <= i <= l@.len(),
            tokens_upto(l@, i as nat) == (strings_view(out@), l@.subrange(
                start as int,
                i as int,
            )),
        decreases l@.len() - i,
    {
        let c = l[i];
        if c == ' ' || c == '\t' || c == '\n' || c == '\x0C' || c == '\r' {
            if start < i {
                let ghost before = out@;
                out.push(string_of(l, start, i));
                assert(strings_view(out@) =~= strings_view(before).push(
                    l@.subrange(start as int, i as int),
                ));
            }
            start = i + 1;
            assert(l@.subrange(start as int, i + 1) =~= seq![]);
        } else {
            assert(l@.subrange(start as int, i + 1) =~= l@.subrange(start as int, i as int).push(c));
        }
        i += 1;
    }
    if start < i {
        let ghost before = out@;
        out.push(string_of(l, start, i));
        assert(strings_view(out@) =~= strings_view(before).push(
            l@.subrange(start as int, i as int),
        ));
    }
    out
}

/// All pattern tokens of `deb`, in order.
fn collect_tokens(deb: &Deb822File) -> (r: Vec<String>)
    ensures
        strings_view(r@) == doc_tokens(deb@),
{
    let ghost d = deb@;
    let key = "Files-Excluded".to_owned();
    let mut out: Vec<String> = Vec::new();
    let mut si: usize = 0;
    assert(d.subrange(0, 0) =~= seq![]);
    assert(strings_view(out@) =~= seq![]);
    while si < deb.stanzas.len()
        invariant
            d == deb@,
            key@ == files_excluded(),
            si <= d.len(),
            d.len() == deb.stanzas@.len(),
            strings_view(out@) == doc_tokens(d.subrange(0, si as int)),
        decreases d.len() - si,
    {
        let ghost base = strings_view(out@);
        let st = &deb.stanzas[si];
        assert(d.subrange(0, si + 1).drop_last() =~= d.subrange(0, si as int));
        match find_field(&st.fields, &key) {
            None => {
                assert(base + seq![] =~= base);
            },
            Some(j) => {
                let lines = st.fields[j].1.iter_lines();
                let ghost lv = strings_view(lines@);
                let mut li: usize = 0;
                assert(lv.subrange(0, 0) =~= seq![]);
                assert(base + seq![] =~= base);
                while li < lines.len()
                    invariant
                        lv == strings_view(lines@),
                        li <= lv.len(),
                        strings_view(out@) == base + lines_tokens(lv.subrange(0, li as int)),
                    decreases lv.len() - li,
                {
                    let chars = chars_of(lines[li].as_str());
                    let toks = split_tokens(&chars);
                    let ghost mid = strings_view(out@);
                    let mut ti: usize = 0;
                    assert(mid + seq![] =~= mid);
                    while ti < toks.len()
                        invariant
                            ti <= toks@.len(),
                            strings_view(out@) == mid + strings_view(toks@).subrange(0, ti as int),
                        decreases toks@.len() - ti,
                    {
                        let ghost before = out@;
                        out.push(toks[ti].clone());
                        assert(strings_view(out@) =~= strings_view(before).push(toks@[ti as int]@));
                        assert(mid + strings_view(toks@).subrange(0, ti + 1) =~= (mid
                            + strings_view(toks@).subrange(0, ti as int)).push(toks@[ti as int]@));
                        ti += 1;
                    }
                    assert(strings_view(toks@).subrange(0, ti as int) =~= strings_view(toks@));
                    assert(lv.subrange(0, li + 1).drop_last() =~= lv.subrange(0, li as int));
                    assert(base + lines_tokens(lv.subrange(0, li + 1)) =~= mid + strings_view(toks@));
                    li += 1;
                }
                assert(lv.subrange(0, li as int) =~= lv);
            },
        }
        si += 1;
    }
    assert(d.subrange(0, si as int) =~= d);
    out
}

/// Once compilation fails, later tokens change nothing.
proof fn lemma_compile_all_err_persists(toks: Seq<Seq<char>>, k: int, n: int)
    requires
        0 <= k <= n <= toks.len(),
        compile_all(toks.subrange(0, k)) is Err,
    ensures
        compile_all(toks.subrange(0, n)) == compile_all(toks.subrange(0, k)),
    decreases n - k,
{
    if k < n {
        lemma_compile_all_err_persists(toks, k, n - 1);
        assert(toks.subrange(0, n).drop_last() =~= toks.subrange(0, n - 1));
    }
}

impl CopyrightFile {
    /// Pulls the exclusion patterns out of a parsed document.
    pub fn new(deb: Deb822File) -> (r: Result<CopyrightFile, ExtractError>)
        ensures
            match r {
                Ok(c) => policy_spec(deb@) == Ok::<_, (Seq<char>, GlobError)>(c@),
                Err(e) => policy_spec(deb@) == Err::<Seq<Seq<Segment>>, _>((e.token@, e.error)),
            },
    {
        let toks = collect_tokens(&deb);
        let ghost tv = strings_view(toks@);
        let mut excludes: Vec<Glob> = Vec::new();
        let mut k: usize = 0;
        assert(tv.subrange(0, 0) =~= seq![]);
        assert(globs_view(excludes@) =~= seq![]);
        while k < toks.len()
            invariant
                tv == strings_view(toks@),
                tv == doc_tokens(deb@),
                k <= tv.len(),
                compile_all(tv.subrange(0, k as int)) == Ok::<_, (Seq<char>, GlobError)>(
                    globs_view(excludes@),
                ),
            decreases tv.len() - k,
        {
            assert(tv.subrange(0, k + 1).drop_last() =~= tv.subrange(0, k as int));
            match Glob::compile(toks[k].as_str()) {
                Err(error) => {
                    proof {
                        lemma_compile_all_err_persists(tv, k + 1, tv.len() as int);
                        assert(tv.subrange(0, tv.len() as int) =~= tv);
                    }
                    return Err(ExtractError { token: toks[k].clone(), error });
                },
                Ok(g) => {
                    if !g.is_empty() {
                        let ghost before = excludes@;
                        excludes.push(g);
                        assert(globs_view(excludes@) =~= globs_view(before).push(g@));
                    }
                },
            }
            k += 1;
        }
        assert(tv.subrange(0, k as int) =~= tv);
        Ok(CopyrightFile { excludes })
    }

    /// Parses a copyright file and pulls out its exclusion patterns.
    pub fn parse(text: &str) -> (r: Result<CopyrightFile, CopyrightError>)
        requires
            text@.len() < usize::MAX,
        ensures
            match r {
                Ok(c) => parse_spec(text@) is Ok && policy_spec(parse_spec(text@)->Ok_0) == Ok::<
                    _,
                    (Seq<char>, GlobError),
                >(c@),
                Err(CopyrightError::Parse(e)) => parse_spec(text@) == Err::<Seq<StanzaV>, _>(e@),
                Err(CopyrightError::Extract(e)) => parse_spec(text@) is Ok && policy_spec(
                    parse_spec(text@)->Ok_0,
                ) == Err::<Seq<Seq<Segment>>, _>((e.token@, e.error)),
            },
    {
        match Deb822File::parse(text) {
            Err(e) => Err(CopyrightError::Parse(e)),
            Ok(deb) => {
                match CopyrightFile::new(deb) {
                    Ok(c) => Ok(c),
                    Err(e) => Err(CopyrightError::Extract(e)),
                }
            },
        }
    }

    /// Whether any pattern of the policy matches the whole of `path`.
    pub fn is_path_excluded(&self, path: &str) -> (r: bool)
        ensures
            r == exists|k: int| 0 <= k < self@.len() && glob_matches(#[trigger] self@[k], path@),
    {
        let mut k: usize = 0;
        while k < self.excludes.len()
            invariant
                k <= self.excludes@.len(),
                forall|t: int| 0 <= t < k ==> !glob_matches(#[trigger] self@[t], path@),
            decreases self.excludes@.len() - k,
        {
            assert(self@[k as int] == self.excludes@[k as int]@);
            if self.excludes[k].matches(path) {
                return true;
            }
            k += 1;
        }
        false
    }
}

} // verus!
