//! Line filters: keep the lines of a text that contain a query, exactly or
//! ignoring case, found either by `str::contains` or by the search of
//! `crate::kmp`.

use vstd::prelude::*;
use vstd::string::StringSliceAdditionalSpecFns;
use vstd::utf8::encode_utf8;
use crate::kmp::{is_failure_table, occurs, matches_at, kmp, return_failure_function_table};

verus! {

/// What the tool is asked to do: the query, the file to read, and how to
/// search.
#[derive(Debug)]
pub struct Config {
    pub query: String,
    pub filename: String,
    pub case_sensitive: bool,
    pub use_kmp: bool,
}

impl Config {
    /// Reads the query and the file name from `args`, whose first entry is the
    /// program's name. `case_insensitive` and `use_kmp` tell whether the
    /// matching switches were set.
    pub fn new(args: &Vec<String>, case_insensitive: bool, use_kmp: bool) -> (r: Result<
        Config,
        &'static str,
    >)
        ensures
            args@.len() < 2 ==> r is Err && r->Err_0@ == "Did not get a query string !"@,
            args@.len() == 2 ==> r is Err && r->Err_0@ == "Did not get a file name"@,
            args@.len() > 2 ==> r is Ok && r->Ok_0 == (Config {
                query: args@[1],
                filename: args@[2],
                case_sensitive: !case_insensitive,
                use_kmp,
            }),
    {
        if args.len() < 2 {
            return Err("Did not get a query string !");
        }
        if args.len() < 3 {
            return Err("Did not get a file name");
        }
        let query = args[1].clone();
        let filename = args[2].clone();
        Ok(Config { query, filename, case_sensitive: !case_insensitive, use_kmp })
    }
}

/// `q` occurs as a contiguous run of characters in `t`.
pub open spec fn has_infix(t: Seq<char>, q: Seq<char>) -> bool {
    exists|s: int| 0 <= s && s + q.len() <= t.len() && #[trigger] t.subrange(s, s + q.len()) == q
}

/// What `str::to_lowercase` returns for a string of these characters.
pub uninterp spec fn lower_of(s: Seq<char>) -> Seq<char>;

/// Relies on `str::to_lowercase`: the lowercase form of a string depends on
/// its characters alone.
#[verifier::external_body]
fn lowercase(s: &str) -> (r: String)
    ensures
        r@ == lower_of(s@),
{
    s.to_lowercase()
}

/// Relies on `str::contains` with a `&str` pattern: true exactly when the
/// pattern matches a sub-slice of the text.
#[verifier::external_body]
fn str_contains(text: &str, pat: &str) -> (r: bool)
    ensures
        r == has_infix(text@, pat@),
{
    text.contains(pat)
}

/// The lines of `lines`, in order, whose characters satisfy `keep`.
pub open spec fn select(lines: Seq<String>, keep: spec_fn(Seq<char>) -> bool) -> Seq<String>
    decreases lines.len(),
{
    if lines.len() == 0 {
        Seq::empty()
    } else {
        let r = select(lines.drop_last(), keep);
        if keep(lines.last()@) {
            r.push(lines.last())
        } else {
            r
        }
    }
}

/// Lines that hold the query as it is.
pub open spec fn holds_exact(q: Seq<char>) -> spec_fn(Seq<char>) -> bool {
    |l: Seq<char>| has_infix(l, q)
}

/// Lines that hold the query once both are lowercased.
pub open spec fn holds_folded(q: Seq<char>) -> spec_fn(Seq<char>) -> bool {
    |l: Seq<char>| has_infix(lower_of(l), lower_of(q))
}

/// Lines whose bytes hold the bytes of the query.
pub open spec fn holds_bytes(q: Seq<char>) -> spec_fn(Seq<char>) -> bool {
    |l: Seq<char>| occurs(encode_utf8(l), encode_utf8(q))
}

/// Lines whose lowercased bytes hold the bytes of the lowercased query.
pub open spec fn holds_folded_bytes(q: Seq<char>) -> spec_fn(Seq<char>) -> bool {
    |l: Seq<char>| occurs(encode_utf8(lower_of(l)), encode_utf8(lower_of(q)))
}

proof fn lemma_select_step(lines: Seq<String>, keep: spec_fn(Seq<char>) -> bool, k: int)
    requires
        0 <= k < lines.len(),
    ensures
        select(lines.take(k + 1), keep) == if keep(lines[k]@) {
            select(lines.take(k), keep).push(lines[k])
        } else {
            select(lines.take(k), keep)
        },
{
    assert(lines.take(k + 1).drop_last() =~= lines.take(k));
}

/// Whether `query` occurs in `line`, by the search of `crate::kmp` with the
/// failure table `jump_table` of `query`.
pub fn kmp_found(query: &str, line: &str, jump_table: &Vec<usize>) -> (r: bool)
    requires
        is_failure_table(query.spec_bytes(), jump_table@),
    ensures
        r == occurs(line.spec_bytes(), query.spec_bytes()),
{
    let found = kmp(query, line, jump_table);
    match found {
        Some(s) => {
            assert(matches_at(line.spec_bytes(), query.spec_bytes(), s as int));
            true
        },
        None => false,
    }
}

/// The lines that contain `query`, found with a failure table built once.
pub fn kmp_search(query: &str, lines: &Vec<String>) -> (r: Vec<String>)
    ensures
        r@ == select(lines@, holds_bytes(query@)),
{
    let jump_table = return_failure_function_table(query);
    let mut result: Vec<String> = Vec::new();
    let mut k: usize = 0;
    while k < lines.len()
        invariant
            k <= lines@.len(),
            is_failure_table(query.spec_bytes(), jump_table@),
            result@ == select(lines@.take(k as int), holds_bytes(query@)),
        decreases lines@.len() - k,
    {
        proof {
            lemma_select_step(lines@, holds_bytes(query@), k as int);
        }
        if kmp_found(query, lines[k].as_str(), &jump_table) {
            result.push(lines[k].clone());
        }
        k += 1;
    }
    assert(lines@.take(lines@.len() as int) =~= lines@);
    result
}

/// The lines that contain `query` when both are lowercased, found with a
/// failure table of the lowercased query.
pub fn kmp_search_case_insensitive(query: &str, lines: &Vec<String>) -> (r: Vec<String>)
    ensures
        r@ == select(lines@, holds_folded_bytes(query@)),
{
    let folded = lowercase(query);
    let jump_table = return_failure_function_table(folded.as_str());
    let mut result: Vec<String> = Vec::new();
    let mut k: usize = 0;
    while k < lines.len()
        invariant
            k <= lines@.len(),
            folded@ == lower_of(query@),
            is_failure_table(encode_utf8(folded@), jump_table@),
            result@ == select(lines@.take(k as int), holds_folded_bytes(query@)),
        decreases lines@.len() - k,
    {
        proof {
            lemma_select_step(lines@, holds_folded_bytes(query@), k as int);
        }
        let line = lowercase(lines[k].as_str());
        if kmp_found(folded.as_str(), line.as_str(), &jump_table) {
            result.push(lines[k].clone());
        }
        k += 1;
    }
    assert(lines@.take(lines@.len() as int) =~= lines@);
    result
}

/// The lines that contain `query`.
pub fn search(query: &str, lines: &Vec<String>) -> (r: Vec<String>)
    ensures
        r@ == select(lines@, holds_exact(query@)),
{
    let mut result: Vec<String> = Vec::new();
    let mut k: usize = 0;
    while k < lines.len()
        invariant
            k <= lines@.len(),
            result@ == select(lines@.take(k as int), holds_exact(query@)),
        decreases lines@.len() - k,
    {
        proof {
            lemma_select_step(lines@, holds_exact(query@), k as int);
        }
        if str_contains(lines[k].as_str(), query) {
            result.push(lines[k].clone());
        }
        k += 1;
    }
    assert(lines@.take(lines@.len() as int) =~= lines@);
    result
}

/// The lines that contain `query` when both are lowercased.
pub fn search_case_insensitive(query: &str, lines: &Vec<String>) -> (r: Vec<String>)
    ensures
        r@ == select(lines@, holds_folded(query@)),
{
    let folded = lowercase(query);
    let mut result: Vec<String> = Vec::new();
    let mut k: usize = 0;
    while k < lines.len()
        invariant
            k <= lines@.len(),
            folded@ == lower_of(query@),
            result@ == select(lines@.take(k as int), holds_folded(query@)),
        decreases lines@.len() - k,
    {
        proof {
            lemma_select_step(lines@, holds_folded(query@), k as int);
        }
        let line = lowercase(lines[k].as_str());
        if str_contains(line.as_str(), folded.as_str()) {
            result.push(lines[k].clone());
        }
        k += 1;
    }
    assert(lines@.take(lines@.len() as int) =~= lines@);
    result
}

} // verus!
