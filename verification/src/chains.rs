//! Call chains of LLM calls, for the desktop companion's "chains" view:
//! where the trace stores live, how their records are read and filtered,
//! and how a saved chain analysis is written down.
//!
//! Two writers keep traces in different places: one file
//! (`~/.n-cursor/llm-trace.jsonl`) and a directory of daily files
//! (`llm-trace-YYYY-MM-DD.jsonl`). Both are read and merged oldest first;
//! an explicit trace path overrides both with exactly one file.

use vstd::prelude::*;
use crate::chain_correlation::opt_view;
use crate::json::{get_field, json_parse, parse_json, str_field, Json, JsonView};
use crate::sort::{
    isort_num, isort_text, keyed_view, lemma_isort_num_sorted, lemma_isort_text_sorted, sort_by_num_key,
    sort_by_text_key, str_lt,
};
use crate::text::{
    digits_u64_spec, ends_with_seq, is_ascii_digit, join_path, join_path_spec, lines_spec,
    lossy_string, parse_digits_u64, split_lines, starts_with_seq, to_chars, trim,
    trim_spec, utf8_lossy,
};
use vstd::string::StrSliceExecFns;

verus! {

/// Size limit of the tail read from the trace stores.
pub const TRACE_TAIL_BYTES: u64 = 8388608;
/// How many chains are listed by default.
pub const DEFAULT_CHAINS_LIMIT: usize = 200;
/// How many characters of an analysis go into its index summary.
pub const ANALYSIS_SUMMARY_CHARS: usize = 200;

/// Whether `d` has the shape `YYYY-MM-DD` (ASCII digits and two dashes).
pub open spec fn is_date_shape(d: Seq<char>) -> bool {
    &&& d.len() == 10
    &&& d[4] == '-'
    &&& d[7] == '-'
    &&& forall|i: int| 0 <= i < 10 && i != 4 && i != 7 ==> is_ascii_digit(#[trigger] d[i])
}

/// The date of a daily trace file name: `Some` exactly when the name is
/// `llm-trace-` + `YYYY-MM-DD` + `.jsonl`.
pub open spec fn daily_file_date_spec(name: Seq<char>) -> Option<Seq<char>> {
    let p = "llm-trace-"@;
    let x = ".jsonl"@;
    if starts_with_seq(name, p) && ends_with_seq(name.skip(p.len() as int), x) {
        let d = name.subrange(p.len() as int, name.len() - x.len());
        if is_date_shape(d) {
            Some(d)
        } else {
            None
        }
    } else {
        None
    }
}

/// The date (`YYYY-MM-DD`) of a daily trace file name, if the name has
/// exactly the writer's shape `llm-trace-YYYY-MM-DD.jsonl`.
pub fn daily_file_date(name: &str) -> (r: Option<&str>)
    ensures
        match r {
            Some(d) => daily_file_date_spec(name@) == Some(d@),
            None => daily_file_date_spec(name@) is None,
        },
{
    let chars = to_chars(name);
    let n = chars.len();
    let pl = "llm-trace-".unicode_len();
    let xl = ".jsonl".unicode_len();
    proof {
        assert(chars@.skip(0) =~= name@);
    }
    if !crate::text::starts_with_at(&chars, 0, "llm-trace-") {
        return None;
    }
    proof {
        assert(pl == "llm-trace-"@.len());
        assert(xl == ".jsonl"@.len());
        assert(starts_with_seq(name@, "llm-trace-"@));
    }
    if n - pl < xl {
        proof {
            assert(!ends_with_seq(name@.skip(pl as int), ".jsonl"@));
        }
        return None;
    }
    if !crate::text::starts_with_at(&chars, n - xl, ".jsonl") {
        proof {
            assert(name@.skip(pl as int).skip(name@.len() - pl - xl) =~= name@.skip(n - xl));
            assert(chars@.skip(n - xl).take(xl as int) =~= chars@.skip(n - xl));
        }
        return None;
    }
    proof {
        assert(name@.skip(pl as int).skip(name@.len() - pl - xl) =~= name@.skip(n - xl));
        assert(chars@.skip(n - xl).take(xl as int) =~= chars@.skip(n - xl));
        assert(ends_with_seq(name@.skip(pl as int), ".jsonl"@));
    }
    let dl = n - pl - xl;
    if dl != 10 {
        return None;
    }
    let mut i: usize = 0;
    while i < 10
        invariant
            chars@ == name@,
            n == name@.len(),
            pl + 10 + xl == n,
            pl == "llm-trace-"@.len(),
            xl == ".jsonl"@.len(),
            starts_with_seq(name@, "llm-trace-"@),
            ends_with_seq(name@.skip(pl as int), ".jsonl"@),
            i <= 10,
            forall|j: int|
                0 <= j < i ==> if j == 4 || j == 7 {
                    chars@[pl + j] == '-'
                } else {
                    is_ascii_digit(#[trigger] chars@[pl + j])
                },
        decreases 10 - i,
    {
        let c = chars[pl + i];
        let ok = if i == 4 || i == 7 { c == '-' } else { '0' <= c && c <= '9' };
        if !ok {
            proof {
                let d = name@.subrange(pl as int, n - xl);
                assert(d[i as int] == c);
                assert(!is_date_shape(d));
            }
            return None;
        }
        i = i + 1;
    }
    let d = name.substring_char(pl, n - xl);
    proof {
        let dd = name@.subrange(pl as int, n - xl);
        assert forall|j: int| 0 <= j < 10 && j != 4 && j != 7 implies is_ascii_digit(#[trigger] dd[j]) by {
            assert(dd[j] == chars@[pl + j]);
        }
        assert(dd[4] == chars@[pl + 4]);
        assert(dd[7] == chars@[pl + 7]);
    }
    Some(d)
}

/// The daily trace files among file names, paired with their dates, in
/// input order.
pub open spec fn dated_names(names: Seq<Seq<char>>) -> Seq<(Seq<char>, Seq<char>)>
    decreases names.len(),
{
    if names.len() == 0 {
        Seq::empty()
    } else {
        let acc = dated_names(names.drop_last());
        match daily_file_date_spec(names.last()) {
            Some(d) => acc.push((d, names.last())),
            None => acc,
        }
    }
}

/// The daily trace files among file names, oldest first (by their date;
/// names of equal date keep their order).
pub open spec fn daily_names_spec(names: Seq<Seq<char>>) -> Seq<Seq<char>> {
    let sorted = isort_text(dated_names(names));
    Seq::new(sorted.len(), |i: int| sorted[i].1)
}

/// Strings as character sequences.
pub open spec fn strings_view(v: Seq<String>) -> Seq<Seq<char>> {
    Seq::new(v.len(), |i: int| v[i]@)
}

/// Picks the daily trace files out of a directory's file names and orders
/// them chronologically (the names sort as their dates do).
pub fn daily_trace_names(names: Vec<String>) -> (r: Vec<String>)
    ensures
        strings_view(r@) == daily_names_spec(strings_view(names@)),
{
    let ghost nv = strings_view(names@);
    let mut keyed: Vec<(String, String)> = Vec::new();
    let mut k: usize = 0;
    while k < names.len()
        invariant
            nv == strings_view(names@),
            k <= names@.len(),
            keyed_view(keyed@).len() == dated_names(nv.take(k as int)).len(),
            forall|i: int| 0 <= i < keyed@.len() ==> (#[trigger] keyed@[i]).0@ == dated_names(nv.take(k as int))[i].0
                && keyed@[i].1@ == dated_names(nv.take(k as int))[i].1,
        decreases names@.len() - k,
    {
        proof {
            assert(nv.take(k + 1).drop_last() =~= nv.take(k as int));
            assert(nv.take(k + 1).last() == names@[k as int]@);
        }
        match daily_file_date(names[k].as_str()) {
            Some(d) => {
                keyed.push((d.to_owned(), names[k].clone()));
            },
            None => {},
        }
        k = k + 1;
    }
    proof {
        assert(nv.take(names@.len() as int) =~= nv);
    }
    let ghost kv = keyed_view(keyed@);
    let ghost dn = dated_names(nv);
    proof {
        let f = |x: String| x@;
        assert forall|i: int| 0 <= i < kv.len() implies (#[trigger] dn[i]).0 == kv[i].0 && dn[i].1 == f(
            kv[i].1,
        ) by {
            assert(kv[i] == (keyed@[i].0@, keyed@[i].1));
        }
        crate::sort::lemma_isort_text_map(kv, dn, f);
        crate::sort::lemma_isort_text_len(kv);
    }
    let sorted = sort_by_text_key(keyed);
    let n = sorted.len();
    let mut rest = crate::json::reversed(sorted);
    let mut out: Vec<String> = Vec::new();
    let ghost sv = isort_text(kv);
    let ghost target = isort_text(dn);
    while out.len() < n
        invariant
            sv == isort_text(kv),
            target == isort_text(dn),
            sv.len() == n,
            target.len() == n,
            forall|i: int| 0 <= i < n ==> (#[trigger] target[i]).1 == sv[i].1@,
            out@.len() <= n,
            rest@.len() == n - out@.len(),
            forall|j: int| 0 <= j < rest@.len() ==> (#[trigger] rest@[j]).1 == sv[n - 1 - j].1,
            forall|i: int| 0 <= i < out@.len() ==> (#[trigger] out@[i])@ == target[i].1,
        decreases n - out@.len(),
    {
        let (_, name) = rest.pop().unwrap();
        out.push(name);
    }
    proof {
        assert(strings_view(out@) =~= daily_names_spec(nv));
    }
    out
}

/// A non-empty value.
pub open spec fn non_empty(v: Option<Seq<char>>) -> Option<Seq<char>> {
    match v {
        Some(s) => if s.len() > 0 {
            Some(s)
        } else {
            None
        },
        None => None,
    }
}

/// Keeps a value only when it is not empty.
pub fn non_empty_value(v: Option<String>) -> (r: Option<String>)
    ensures
        opt_view(r) == non_empty(opt_view(v)),
{
    match v {
        Some(s) => if s.as_str().unicode_len() > 0 {
            Some(s)
        } else {
            None
        },
        None => None,
    }
}

/// The explicit single trace file: `N_LLM_TRACE_PATH`, else
/// `N_CURSOR_TRACE_PATH`, whichever is set and not empty first.
pub fn explicit_trace_path(llm_trace_path: Option<String>, cursor_trace_path: Option<String>) -> (r:
    Option<String>)
    ensures
        opt_view(r) == match non_empty(opt_view(llm_trace_path)) {
            Some(p) => Some(p),
            None => non_empty(opt_view(cursor_trace_path)),
        },
{
    match non_empty_value(llm_trace_path) {
        Some(p) => Some(p),
        None => non_empty_value(cursor_trace_path),
    }
}

/// The single trace file of the first writer: `<home>/.n-cursor/llm-trace.jsonl`.
pub fn legacy_trace_path(home: &str) -> (r: String)
    ensures
        r@ == join_path_spec(join_path_spec(home@, ".n-cursor"@), "llm-trace.jsonl"@),
{
    let dir = join_path(home, ".n-cursor");
    join_path(dir.as_str(), "llm-trace.jsonl")
}

/// Directory of the daily trace files: `N_LLM_TRACE_DIR` when set and not
/// empty, else `<home>/.n-llm-lib`.
pub fn trace_dir(env_dir: Option<String>, home: &str) -> (r: String)
    ensures
        r@ == match non_empty(opt_view(env_dir)) {
            Some(d) => d,
            None => join_path_spec(home@, ".n-llm-lib"@),
        },
{
    match non_empty_value(env_dir) {
        Some(d) => d,
        None => join_path(home, ".n-llm-lib"),
    }
}

/// Directory of captured request bodies: `N_LLM_BODIES_DIR` when set and
/// not empty, else `<home>/.n-cursor/llm-bodies`.
pub fn bodies_dir(env_dir: Option<String>, home: &str) -> (r: String)
    ensures
        r@ == match non_empty(opt_view(env_dir)) {
            Some(d) => d,
            None => join_path_spec(join_path_spec(home@, ".n-cursor"@), "llm-bodies"@),
        },
{
    match non_empty_value(env_dir) {
        Some(d) => d,
        None => {
            let dir = join_path(home, ".n-cursor");
            join_path(dir.as_str(), "llm-bodies")
        },
    }
}

/// Root of the saved analyses: `<home>/.n-cursor/insights`.
pub fn insights_dir(home: &str) -> (r: String)
    ensures
        r@ == join_path_spec(join_path_spec(home@, ".n-cursor"@), "insights"@),
{
    let dir = join_path(home, ".n-cursor");
    join_path(dir.as_str(), "insights")
}

/// Index of the saved analyses in the application's data directory.
pub fn analyses_index_path(app_data_dir: &str) -> (r: String)
    ensures
        r@ == join_path_spec(app_data_dir@, "chain-analyses.jsonl"@),
{
    join_path(app_data_dir, "chain-analyses.jsonl")
}

/// All trace sources, oldest first: the explicit file alone when there is
/// one; else the first writer's file (when it exists) and then the daily
/// files.
pub open spec fn trace_sources_spec(
    explicit: Option<Seq<char>>,
    legacy: Seq<char>,
    legacy_exists: bool,
    daily: Seq<Seq<char>>,
) -> Seq<Seq<char>> {
    match explicit {
        Some(p) => seq![p],
        None => if legacy_exists {
            seq![legacy] + daily
        } else {
            daily
        },
    }
}

/// Lists the trace sources (see [`trace_sources_spec`]).
pub fn trace_sources(explicit: Option<String>, legacy: String, legacy_exists: bool, daily: Vec<String>) -> (r:
    Vec<String>)
    ensures
        strings_view(r@) == trace_sources_spec(opt_view(explicit), legacy@, legacy_exists, strings_view(daily@)),
{
    match explicit {
        Some(p) => {
            let mut v: Vec<String> = Vec::new();
            v.push(p);
            assert(strings_view(v@) =~= seq![v@[0]@]);
            v
        },
        None => {
            let mut v: Vec<String> = Vec::new();
            if legacy_exists {
                v.push(legacy);
            }
            let ghost start = strings_view(v@);
            let mut rest = crate::json::reversed(daily);
            let ghost dv = strings_view(daily@);
            let n = rest.len();
            let mut k: usize = 0;
            while k < n
                invariant
                    n == dv.len(),
                    k <= n,
                    rest@.len() == n - k,
                    forall|j: int| 0 <= j < n - k ==> (#[trigger] rest@[j])@ == dv[n - 1 - j],
                    strings_view(v@) == start + dv.take(k as int),
                decreases n - k,
            {
                let ghost r0 = rest@;
                let ghost v0 = strings_view(v@);
                let x = rest.pop().unwrap();
                proof {
                    assert(x == r0[n - k - 1]);
                    assert(x@ == dv[k as int]);
                }
                v.push(x);
                proof {
                    assert(strings_view(v@) =~= v0.push(x@));
                    assert(dv.take(k + 1) =~= dv.take(k as int).push(dv[k as int]));
                    assert(strings_view(v@) =~= start + dv.take(k + 1));
                }
                k = k + 1;
            }
            proof {
                assert(dv.take(n as int) =~= dv);
                if legacy_exists {
                    assert(start =~= seq![legacy@]);
                } else {
                    assert(start =~= Seq::<Seq<char>>::empty());
                    assert(start + dv =~= dv);
                }
            }
            v
        },
    }
}

/// Values of a list of JSON values.
pub open spec fn json_seq(v: Seq<Json>) -> Seq<JsonView> {
    Seq::new(v.len(), |i: int| v[i]@)
}

/// Values parsed from the trimmed lines that are JSON documents, in order.
pub open spec fn trimmed_parsed(lines: Seq<Seq<char>>) -> Seq<JsonView>
    decreases lines.len(),
{
    if lines.len() == 0 {
        Seq::empty()
    } else {
        let acc = trimmed_parsed(lines.drop_last());
        match json_parse(trim_spec(lines.last())) {
            Some(v) => acc.push(v),
            None => acc,
        }
    }
}

/// Parses the trimmed lines `lines[from..]`, keeping those that are JSON.
fn parse_trimmed_lines(lines: &Vec<String>, from: usize) -> (r: Vec<Json>)
    requires
        from <= lines@.len(),
    ensures
        json_seq(r@) == trimmed_parsed(strings_view(lines@).skip(from as int)),
{
    let ghost ls = strings_view(lines@).skip(from as int);
    let mut out: Vec<Json> = Vec::new();
    let mut k: usize = from;
    proof {
        assert(ls.take(0) =~= Seq::<Seq<char>>::empty());
        assert(json_seq(out@) =~= Seq::<JsonView>::empty());
    }
    while k < lines.len()
        invariant
            ls == strings_view(lines@).skip(from as int),
            from <= k <= lines@.len(),
            json_seq(out@) == trimmed_parsed(ls.take(k - from)),
        decreases lines@.len() - k,
    {
        proof {
            assert(ls.take(k - from + 1).drop_last() =~= ls.take(k - from));
            assert(ls.take(k - from + 1).last() == lines@[k as int]@);
        }
        let t = trim(lines[k].as_str());
        let ghost before = json_seq(out@);
        match parse_json(t.as_str()) {
            Some(v) => {
                out.push(v);
                proof {
                    assert(json_seq(out@) =~= before.push(out@.last()@));
                }
            },
            None => {},
        }
        k = k + 1;
    }
    proof {
        assert(ls.take(lines@.len() - from) =~= ls);
    }
    out
}

/// The records of a trace tail: the bytes read as UTF-8 (invalid sequences
/// replaced), split into lines, the first line dropped when the tail starts
/// in the middle of the file (it may be cut), each line trimmed and parsed,
/// lines that are not JSON skipped.
pub open spec fn trace_records_spec(buf: Seq<u8>, starts_mid_file: bool) -> Seq<JsonView> {
    let ls = lines_spec(utf8_lossy(buf));
    trimmed_parsed(
        if starts_mid_file && ls.len() > 0 {
            ls.drop_first()
        } else {
            ls
        },
    )
}

/// Reads the records of a trace tail (see [`trace_records_spec`]).
pub fn trace_records(buf: &[u8], starts_mid_file: bool) -> (r: Vec<Json>)
    ensures
        json_seq(r@) == trace_records_spec(buf@, starts_mid_file),
{
    let text = lossy_string(buf);
    let lines = split_lines(text.as_str());
    proof {
        assert(strings_view(lines@) =~= lines_spec(text@));
    }
    let from: usize = if starts_mid_file && lines.len() > 0 { 1 } else { 0 };
    proof {
        assert(strings_view(lines@).skip(0) =~= strings_view(lines@));
        assert(strings_view(lines@).skip(1) =~= strings_view(lines@).drop_first());
    }
    parse_trimmed_lines(&lines, from)
}

/// Where the tail of a file of `len` bytes starts when at most `tail`
/// bytes are read.
pub fn tail_start(len: u64, tail: u64) -> (r: u64)
    ensures
        r == if len > tail { len - tail } else { 0 },
{
    len.saturating_sub(tail)
}

/// The records of the tail of a file: of its last `tail` bytes, with the
/// first line dropped when the tail starts in the middle of the file.
pub open spec fn trace_tail_spec(content: Seq<u8>, tail: u64) -> Seq<JsonView> {
    let start = if content.len() > tail { content.len() - tail } else { 0 };
    trace_records_spec(content.skip(start), start > 0)
}

/// The records of the tail of a file of `file_len` bytes read from
/// `tail_start(file_len, tail_bytes)` on; for any content of that length
/// whose tail is `read`, they are the records of its tail.
pub fn tail_records(read: &[u8], file_len: u64, tail_bytes: u64) -> (r: Vec<Json>)
    ensures
        json_seq(r@) == trace_records_spec(read@, file_len > tail_bytes),
        forall|c: Seq<u8>|
            c.len() == file_len && read@ == c.skip(
                if file_len > tail_bytes { file_len - tail_bytes } else { 0 },
            ) ==> json_seq(r@) == #[trigger] trace_tail_spec(c, tail_bytes),
{
    let start = tail_start(file_len, tail_bytes);
    trace_records(read, start > 0)
}

/// The byte budget left after reading the tail of a file of `len` bytes.
pub fn remaining_budget(left: u64, len: u64) -> (r: u64)
    ensures
        r == left - if len < left { len } else { left },
{
    if len < left {
        left - len
    } else {
        0
    }
}

/// The byte budget each source's tail is read with, newest source first:
/// the first gets the whole budget, each next one what the previous left
/// (its length, at most what it was given, is spent); reading stops once
/// nothing is left.
pub open spec fn tail_budgets_spec(lens: Seq<u64>, left: u64) -> Seq<u64>
    decreases lens.len(),
{
    if lens.len() == 0 || left == 0 {
        Seq::empty()
    } else {
        let spent = if lens[0] < left { lens[0] } else { left };
        seq![left] + tail_budgets_spec(lens.drop_first(), (left - spent) as u64)
    }
}

/// The bytes spent by reading the tails (see [`tail_budgets_spec`]).
pub open spec fn spent_spec(lens: Seq<u64>, left: u64) -> nat
    decreases lens.len(),
{
    if lens.len() == 0 || left == 0 {
        0
    } else {
        let spent = if lens[0] < left { lens[0] } else { left };
        spent as nat + spent_spec(lens.drop_first(), (left - spent) as u64)
    }
}

/// The budgets the sources' tails are read with, given their lengths,
/// newest source first (see [`tail_budgets_spec`]).
pub fn tail_budgets(lens: &Vec<u64>, budget: u64) -> (r: Vec<u64>)
    ensures
        r@ == tail_budgets_spec(lens@, budget),
{
    let mut out: Vec<u64> = Vec::new();
    let mut left = budget;
    let mut k: usize = 0;
    proof {
        assert(lens@.skip(0) =~= lens@);
    }
    while k < lens.len() && left > 0
        invariant
            k <= lens@.len(),
            tail_budgets_spec(lens@, budget) == out@ + tail_budgets_spec(lens@.skip(k as int), left),
        decreases lens@.len() - k,
    {
        let ghost rest = lens@.skip(k as int);
        let ghost before = out@;
        out.push(left);
        let next = remaining_budget(left, lens[k]);
        proof {
            assert(rest[0] == lens@[k as int]);
            assert(rest.drop_first() =~= lens@.skip(k + 1));
            assert(before + tail_budgets_spec(rest, left) =~= out@ + tail_budgets_spec(
                lens@.skip(k + 1),
                next,
            ));
        }
        left = next;
        k = k + 1;
    }
    proof {
        assert(tail_budgets_spec(lens@.skip(k as int), left) =~= Seq::<u64>::empty());
        assert(out@ + Seq::<u64>::empty() =~= out@);
    }
    out
}

/// The shared budget goes to the newest sources first: every budget is
/// positive and no larger than the one before it, the reads never spend
/// more than the budget, and an older source is left unread only once the
/// whole budget is spent.
pub proof fn lemma_tail_budgets(lens: Seq<u64>, left: u64)
    ensures
        tail_budgets_spec(lens, left).len() <= lens.len(),
        forall|i: int| 0 <= i < tail_budgets_spec(lens, left).len() ==> 0 < #[trigger] tail_budgets_spec(lens, left)[i] <= left,
        forall|i: int, j: int|
            0 <= i < j < tail_budgets_spec(lens, left).len() ==> #[trigger] tail_budgets_spec(lens, left)[j]
                <= #[trigger] tail_budgets_spec(lens, left)[i],
        spent_spec(lens, left) <= left,
        tail_budgets_spec(lens, left).len() < lens.len() ==> spent_spec(lens, left) == left,
    decreases lens.len(),
{
    if lens.len() > 0 && left > 0 {
        let spent = if lens[0] < left { lens[0] } else { left };
        let next = (left - spent) as u64;
        lemma_tail_budgets(lens.drop_first(), next);
        let b = tail_budgets_spec(lens, left);
        let rest = tail_budgets_spec(lens.drop_first(), next);
        assert forall|i: int| 0 <= i < b.len() implies 0 < #[trigger] b[i] <= left by {
            if i > 0 {
                assert(b[i] == rest[i - 1]);
            }
        }
        assert forall|i: int, j: int| 0 <= i < j < b.len() implies #[trigger] b[j] <= #[trigger] b[i] by {
            assert(b[j] == rest[j - 1]);
            if i > 0 {
                assert(b[i] == rest[i - 1]);
            }
        }
    }
}

/// Concatenation of the chunks in reverse order.
pub open spec fn merged_chunks(chunks: Seq<Seq<JsonView>>) -> Seq<JsonView>
    decreases chunks.len(),
{
    if chunks.len() == 0 {
        Seq::empty()
    } else {
        chunks.last() + merged_chunks(chunks.drop_last())
    }
}

/// Merging keeps every chunk's records as they are and in their order: no
/// chunks give nothing, a single chunk comes out unchanged, and of two runs
/// of chunks, the one read later (the older sources) comes first.
pub proof fn lemma_merge_order(a: Seq<Seq<JsonView>>, b: Seq<Seq<JsonView>>, c: Seq<JsonView>)
    ensures
        merged_chunks(Seq::<Seq<JsonView>>::empty()) == Seq::<JsonView>::empty(),
        merged_chunks(seq![c]) == c,
        merged_chunks(a + b) == merged_chunks(b) + merged_chunks(a),
    decreases b.len(),
{
    assert(seq![c].drop_last() =~= Seq::<Seq<JsonView>>::empty());
    assert(c + Seq::<JsonView>::empty() =~= c);
    if b.len() == 0 {
        assert(a + b =~= a);
        assert(Seq::<JsonView>::empty() + merged_chunks(a) =~= merged_chunks(a));
    } else {
        lemma_merge_order(a, b.drop_last(), c);
        assert((a + b).drop_last() =~= a + b.drop_last());
        assert((a + b).last() == b.last());
        assert(merged_chunks(a + b) =~= merged_chunks(b) + merged_chunks(a));
    }
}

/// Merges chunks read newest source first into one stream, oldest first.
pub fn merge_trace_chunks(chunks: Vec<Vec<Json>>) -> (r: Vec<Json>)
    ensures
        json_seq(r@) == merged_chunks(Seq::new(chunks@.len(), |i: int| json_seq(chunks@[i]@))),
{
    let ghost cs = Seq::new(chunks@.len(), |i: int| json_seq(chunks@[i]@));
    let mut chunks = chunks;
    let mut out: Vec<Json> = Vec::new();
    proof {
        assert(cs.take(cs.len() as int) =~= cs);
        assert(json_seq(out@) + merged_chunks(cs) =~= merged_chunks(cs));
    }
    while chunks.len() > 0
        invariant
            chunks@.len() <= cs.len(),
            forall|i: int| 0 <= i < chunks@.len() ==> json_seq(#[trigger] chunks@[i]@) == cs[i],
            json_seq(out@) + merged_chunks(cs.take(chunks@.len() as int)) == merged_chunks(cs),
        decreases chunks@.len(),
    {
        let ghost c = chunks@.len();
        let chunk = chunks.pop().unwrap();
        proof {
            assert(json_seq(chunk@) == cs[c - 1]);
            assert(cs.take(c as int).drop_last() =~= cs.take(c - 1));
            assert(cs.take(c as int).last() == cs[c - 1]);
        }
        let ghost before = json_seq(out@);
        let mut rest = crate::json::reversed(chunk);
        let m = rest.len();
        let mut j: usize = 0;
        while j < m
            invariant
                1 <= c <= cs.len(),
                m == cs[c - 1].len(),
                j <= m,
                rest@.len() == m - j,
                forall|q: int| 0 <= q < m - j ==> (#[trigger] rest@[q])@ == cs[c - 1][m - 1 - q],
                json_seq(out@) == before + cs[c - 1].take(j as int),
            decreases m - j,
        {
            let ghost r0 = rest@;
            let ghost o0 = json_seq(out@);
            let x = rest.pop().unwrap();
            proof {
                assert(x == r0[m - j - 1]);
                assert(x@ == cs[c - 1][j as int]);
            }
            out.push(x);
            proof {
                assert(json_seq(out@) =~= o0.push(x@));
                assert(cs[c - 1].take(j + 1) =~= cs[c - 1].take(j as int).push(cs[c - 1][j as int]));
                assert(json_seq(out@) =~= before + cs[c - 1].take(j + 1));
            }
            j = j + 1;
        }
        proof {
            assert(cs[c - 1].take(m as int) =~= cs[c - 1]);
            assert(before + cs[c - 1] + merged_chunks(cs.take(c - 1)) =~= before + (cs[c - 1]
                + merged_chunks(cs.take(c - 1))));
        }
    }
    proof {
        assert(cs.take(0) =~= Seq::<Seq<JsonView>>::empty());
        assert(json_seq(out@) + Seq::<JsonView>::empty() =~= json_seq(out@));
    }
    out
}

/// Whether a trace record is a chain's final record (`kind: "chain"`).
pub open spec fn is_chain_record(r: JsonView) -> bool {
    str_field(r, "kind"@) == Some("chain"@)
}

/// The chain records among records, in order.
pub open spec fn chain_records_of(rs: Seq<JsonView>) -> Seq<JsonView>
    decreases rs.len(),
{
    if rs.len() == 0 {
        Seq::empty()
    } else {
        let acc = chain_records_of(rs.drop_last());
        if is_chain_record(rs.last()) {
            acc.push(rs.last())
        } else {
            acc
        }
    }
}

/// The last `limit` chain records (all when there are fewer).
pub open spec fn chains_list_spec(rs: Seq<JsonView>, limit: nat) -> Seq<JsonView> {
    let c = chain_records_of(rs);
    if c.len() > limit {
        c.skip(c.len() - limit)
    } else {
        c
    }
}

/// The latest chains: the last `limit` (by default `DEFAULT_CHAINS_LIMIT`)
/// final records of chains, newest last.
pub fn chains_list(records: &Vec<Json>, limit: Option<usize>) -> (r: Vec<Json>)
    ensures
        json_seq(r@) == chains_list_spec(
            json_seq(records@),
            match limit {
                Some(l) => l as nat,
                None => DEFAULT_CHAINS_LIMIT as nat,
            },
        ),
{
    let ghost rs = json_seq(records@);
    let mut chains: Vec<Json> = Vec::new();
    let mut k: usize = 0;
    proof {
        assert(rs.take(0) =~= Seq::<JsonView>::empty());
        assert(json_seq(chains@) =~= Seq::<JsonView>::empty());
    }
    while k < records.len()
        invariant
            rs == json_seq(records@),
            k <= records@.len(),
            json_seq(chains@) == chain_records_of(rs.take(k as int)),
        decreases records@.len() - k,
    {
        proof {
            assert(rs.take(k + 1).drop_last() =~= rs.take(k as int));
            assert(rs.take(k + 1).last() == records@[k as int]@);
        }
        let ghost before = json_seq(chains@);
        if records[k].field_str_is("kind", "chain") {
            chains.push(records[k].deep_clone());
            proof {
                assert(json_seq(chains@) =~= before.push(records@[k as int]@));
            }
        }
        k = k + 1;
    }
    proof {
        assert(rs.take(records@.len() as int) =~= rs);
    }
    let limit = match limit {
        Some(l) => l,
        None => DEFAULT_CHAINS_LIMIT,
    };
    if chains.len() > limit {
        let drop = chains.len() - limit;
        let ghost all = json_seq(chains@);
        let mut rest = crate::json::reversed(chains);
        let n = rest.len();
        let mut out: Vec<Json> = Vec::new();
        let mut j: usize = 0;
        while j < n
            invariant
                n == all.len(),
                drop <= n,
                j <= n,
                rest@.len() == n - j,
                forall|q: int| 0 <= q < n - j ==> (#[trigger] rest@[q])@ == all[n - 1 - q],
                json_seq(out@) == (if j <= drop { Seq::<JsonView>::empty() } else { all.subrange(drop as int, j as int) }),
            decreases n - j,
        {
            let ghost r0 = rest@;
            let x = rest.pop().unwrap();
            proof {
                assert(x == r0[n - j - 1]);
            }
            proof {
                assert(x@ == all[j as int]);
            }
            if j >= drop {
                let ghost before = json_seq(out@);
                out.push(x);
                proof {
                    assert(json_seq(out@) =~= before.push(all[j as int]));
                    assert(json_seq(out@) =~= all.subrange(drop as int, j + 1));
                }
            }
            j = j + 1;
        }
        proof {
            assert(all.subrange(drop as int, n as int) =~= all.skip(drop as int));
        }
        out
    } else {
        chains
    }
}

/// Whether a trace record is a step of chain `id`: it carries that
/// `chainId` and is not the chain's final record.
pub open spec fn is_step_of(r: JsonView, id: Seq<char>) -> bool {
    str_field(r, "chainId"@) == Some(id) && str_field(r, "kind"@) != Some("chain"@)
}

/// The steps of chain `id` among records, in order.
pub open spec fn chain_steps_of(rs: Seq<JsonView>, id: Seq<char>) -> Seq<JsonView>
    decreases rs.len(),
{
    if rs.len() == 0 {
        Seq::empty()
    } else {
        let acc = chain_steps_of(rs.drop_last(), id);
        if is_step_of(rs.last(), id) {
            acc.push(rs.last())
        } else {
            acc
        }
    }
}

/// The steps of one chain (its per-call records), in file order.
pub fn chain_steps(records: &Vec<Json>, chain_id: &str) -> (r: Vec<Json>)
    ensures
        json_seq(r@) == chain_steps_of(json_seq(records@), chain_id@),
{
    let ghost rs = json_seq(records@);
    let mut out: Vec<Json> = Vec::new();
    let mut k: usize = 0;
    proof {
        assert(rs.take(0) =~= Seq::<JsonView>::empty());
        assert(json_seq(out@) =~= Seq::<JsonView>::empty());
    }
    while k < records.len()
        invariant
            rs == json_seq(records@),
            k <= records@.len(),
            json_seq(out@) == chain_steps_of(rs.take(k as int), chain_id@),
        decreases records@.len() - k,
    {
        proof {
            assert(rs.take(k + 1).drop_last() =~= rs.take(k as int));
            assert(rs.take(k + 1).last() == records@[k as int]@);
        }
        let ghost before = json_seq(out@);
        if records[k].field_str_is("chainId", chain_id) && !records[k].field_str_is("kind", "chain") {
            out.push(records[k].deep_clone());
            proof {
                assert(json_seq(out@) =~= before.push(records@[k as int]@));
            }
        }
        k = k + 1;
    }
    proof {
        assert(rs.take(records@.len() as int) =~= rs);
    }
    out
}

/// A non-negative integer number as `u64` (`Value::as_u64`): its text is
/// a run of digits that fits.
pub open spec fn number_u64(m: Option<JsonView>) -> Option<nat> {
    match m {
        Some(JsonView::Number(t)) => digits_u64_spec(t),
        _ => None,
    }
}

/// Sort key of a captured body: its `chainStep`, 0 when missing.
pub open spec fn step_key(v: JsonView) -> u64 {
    match number_u64(get_field(v, "chainStep"@)) {
        Some(n) => n as u64,
        None => 0,
    }
}

/// The captured bodies that parse, keyed by step, in input order.
pub open spec fn keyed_bodies(texts: Seq<Seq<char>>) -> Seq<(u64, JsonView)>
    decreases texts.len(),
{
    if texts.len() == 0 {
        Seq::empty()
    } else {
        let acc = keyed_bodies(texts.drop_last());
        match json_parse(texts.last()) {
            Some(v) => acc.push((step_key(v), v)),
            None => acc,
        }
    }
}

/// The captured bodies of one chain: the file texts that are JSON, sorted
/// by `chainStep` (stable).
pub open spec fn body_captures_spec(texts: Seq<Seq<char>>) -> Seq<JsonView> {
    let sorted = isort_num(keyed_bodies(texts));
    Seq::new(sorted.len(), |i: int| sorted[i].1)
}

/// The step key of a captured body.
fn body_step_key(v: &Json) -> (r: u64)
    ensures
        r == step_key(v@),
{
    match v.get("chainStep") {
        Some(Json::Number(t)) => match parse_digits_u64(t.as_str()) {
            Some(n) => n,
            None => 0,
        },
        _ => 0,
    }
}

/// Sorting by number key commutes with a change of payload.
proof fn lemma_isort_num_map<A, B>(s: Seq<(u64, A)>, t: Seq<(u64, B)>, f: spec_fn(A) -> B)
    requires
        s.len() == t.len(),
        forall|i: int| 0 <= i < s.len() ==> (#[trigger] t[i]).0 == s[i].0 && t[i].1 == f(s[i].1),
    ensures
        isort_num(t).len() == isort_num(s).len(),
        forall|i: int|
            0 <= i < isort_num(s).len() ==> (#[trigger] isort_num(t)[i]).0 == isort_num(s)[i].0
                && isort_num(t)[i].1 == f(isort_num(s)[i].1),
    decreases s.len(),
{
    if s.len() > 0 {
        let sd = s.drop_last();
        let td = t.drop_last();
        assert forall|i: int| 0 <= i < sd.len() implies (#[trigger] td[i]).0 == sd[i].0 && td[i].1 == f(
            sd[i].1,
        ) by {
            assert(td[i] == t[i]);
            assert(sd[i] == s[i]);
        }
        lemma_isort_num_map(sd, td, f);
        let ss = isort_num(sd);
        let ts = isort_num(td);
        crate::sort::lemma_isort_num_len(sd);
        crate::sort::lemma_isort_num_len(td);
        lemma_insert_pos_num_same_keys(ss, ts, s.last().0);
        assert(t.last() == t[s.len() - 1]);
        let p = crate::sort::insert_pos_num(ss, s.last().0);
        crate::sort::lemma_insert_pos_num_bound(ss, s.last().0);
        assert forall|i: int| 0 <= i < isort_num(s).len() implies (#[trigger] isort_num(t)[i]).0
            == isort_num(s)[i].0 && isort_num(t)[i].1 == f(isort_num(s)[i].1) by {
            if i < p {
            } else if i == p {
            } else {
                assert(isort_num(t)[i] == ts[i - 1]);
                assert(isort_num(s)[i] == ss[i - 1]);
            }
        }
    }
}

proof fn lemma_insert_pos_num_same_keys<A, B>(s: Seq<(u64, A)>, t: Seq<(u64, B)>, k: u64)
    requires
        s.len() == t.len(),
        forall|i: int| 0 <= i < s.len() ==> (#[trigger] s[i]).0 == t[i].0,
    ensures
        crate::sort::insert_pos_num(s, k) == crate::sort::insert_pos_num(t, k),
    decreases s.len(),
{
    if s.len() > 0 {
        assert(s[0].0 == t[0].0);
        lemma_insert_pos_num_same_keys(s.drop_first(), t.drop_first(), k);
    }
}

/// Reads the captured bodies of one chain from the texts of its files (see
/// [`body_captures_spec`]).
pub fn body_captures(texts: &Vec<String>) -> (r: Vec<Json>)
    ensures
        json_seq(r@) == body_captures_spec(strings_view(texts@)),
{
    let ghost tv = strings_view(texts@);
    let mut keyed: Vec<(u64, Json)> = Vec::new();
    let mut k: usize = 0;
    while k < texts.len()
        invariant
            tv == strings_view(texts@),
            k <= texts@.len(),
            keyed@.len() == keyed_bodies(tv.take(k as int)).len(),
            forall|i: int| 0 <= i < keyed@.len() ==> (#[trigger] keyed@[i]).0 == keyed_bodies(tv.take(k as int))[i].0
                && keyed@[i].1@ == keyed_bodies(tv.take(k as int))[i].1,
        decreases texts@.len() - k,
    {
        proof {
            assert(tv.take(k + 1).drop_last() =~= tv.take(k as int));
            assert(tv.take(k + 1).last() == texts@[k as int]@);
        }
        match parse_json(texts[k].as_str()) {
            Some(v) => {
                let key = body_step_key(&v);
                keyed.push((key, v));
            },
            None => {},
        }
        k = k + 1;
    }
    proof {
        assert(tv.take(texts@.len() as int) =~= tv);
    }
    let ghost kb = keyed_bodies(tv);
    let ghost kv = keyed@;
    proof {
        let f = |j: Json| j@;
        lemma_isort_num_map(kv, kb, f);
        crate::sort::lemma_isort_num_len(kv);
    }
    let sorted = sort_by_num_key(keyed);
    let n = sorted.len();
    let mut rest = crate::json::reversed(sorted);
    let mut out: Vec<Json> = Vec::new();
    let ghost sv = isort_num(kv);
    let ghost target = isort_num(kb);
    while out.len() < n
        invariant
            sv == isort_num(kv),
            target == isort_num(kb),
            sv.len() == n,
            target.len() == n,
            forall|i: int| 0 <= i < n ==> (#[trigger] target[i]).1 == sv[i].1@,
            out@.len() <= n,
            rest@.len() == n - out@.len(),
            forall|j: int| 0 <= j < rest@.len() ==> (#[trigger] rest@[j]) == sv[n - 1 - j],
            forall|i: int| 0 <= i < out@.len() ==> (#[trigger] out@[i])@ == target[i].1,
        decreases n - out@.len(),
    {
        let (_, v) = rest.pop().unwrap();
        out.push(v);
    }
    proof {
        assert(json_seq(out@) =~= body_captures_spec(tv));
    }
    out
}

/// A character kept in a path component: ASCII letters and digits, `-`
/// and `_`.
pub open spec fn is_safe_char(c: char) -> bool {
    ('a' <= c <= 'z') || ('A' <= c <= 'Z') || ('0' <= c <= '9') || c == '-' || c == '_'
}

/// A text made safe as a path component: every other character becomes `-`.
pub open spec fn safe_component_spec(s: Seq<char>) -> Seq<char> {
    Seq::new(s.len(), |i: int| if is_safe_char(s[i]) { s[i] } else { '-' })
}

/// Makes a text safe as a path component (see [`safe_component_spec`]).
pub fn safe_component(s: &str) -> (r: String)
    ensures
        r@ == safe_component_spec(s@),
{
    let chars = to_chars(s);
    let mut out = String::new();
    let mut k: usize = 0;
    while k < chars.len()
        invariant
            chars@ == s@,
            k <= chars@.len(),
            out@ == safe_component_spec(s@.take(k as int)),
        decreases chars@.len() - k,
    {
        let c = chars[k];
        let keep = ('a' <= c && c <= 'z') || ('A' <= c && c <= 'Z') || ('0' <= c && c <= '9') || c
            == '-' || c == '_';
        crate::text::push_char(&mut out, if keep { c } else { '-' });
        k = k + 1;
        assert(out@ =~= safe_component_spec(s@.take(k as int)));
    }
    assert(s@.take(chars@.len() as int) =~= s@);
    out
}

/// Path of a saved analysis: `<insights>/<safe kind>/<safe chain id>.md`.
pub fn analysis_path(insights: &str, chain_kind: &str, chain_id: &str) -> (r: String)
    ensures
        r@ == join_path_spec(
            join_path_spec(insights@, safe_component_spec(chain_kind@)),
            safe_component_spec(chain_id@) + ".md"@,
        ),
{
    let kind = safe_component(chain_kind);
    let dir = join_path(insights, kind.as_str());
    let mut file = safe_component(chain_id);
    file.append(".md");
    join_path(dir.as_str(), file.as_str())
}

/// An optional text, empty when missing.
pub open spec fn or_empty(v: Option<Seq<char>>) -> Seq<char> {
    match v {
        Some(s) => s,
        None => Seq::empty(),
    }
}

/// The front matter of a saved analysis, followed by its markdown.
pub open spec fn analysis_document_spec(
    chain_id: Seq<char>,
    chain_kind: Seq<char>,
    unit: Option<Seq<char>>,
    cwd: Option<Seq<char>>,
    target_repo: Option<Seq<char>>,
    model: Option<Seq<char>>,
    ts: u64,
    markdown: Seq<char>,
) -> Seq<char> {
    "---\nchainId: "@ + chain_id + "\nkind: "@ + chain_kind + "\nunit: "@ + or_empty(unit)
        + "\ncwd: "@ + or_empty(cwd) + "\ntargetRepo: "@ + or_empty(target_repo) + "\nmodel: "@
        + or_empty(model) + "\nts: "@ + crate::text::decimal(ts as nat) + "\n---\n\n"@ + markdown
}

/// Appends an optional text.
fn append_opt(out: &mut String, v: &Option<String>)
    ensures
        final(out)@ == old(out)@ + or_empty(opt_view(*v)),
{
    match v {
        Some(s) => out.append(s.as_str()),
        None => {
            assert(old(out)@ + Seq::<char>::empty() =~= old(out)@);
        },
    }
}

/// The text of a saved analysis: front matter (chain id, kind, unit, cwd,
/// target repository, model, timestamp), then the markdown.
pub fn analysis_document(
    chain_id: &str,
    chain_kind: &str,
    unit: &Option<String>,
    cwd: &Option<String>,
    target_repo: &Option<String>,
    model: &Option<String>,
    ts: u64,
    markdown: &str,
) -> (r: String)
    ensures
        r@ == analysis_document_spec(
            chain_id@,
            chain_kind@,
            opt_view(*unit),
            opt_view(*cwd),
            opt_view(*target_repo),
            opt_view(*model),
            ts,
            markdown@,
        ),
{
    let mut out = String::new();
    out.append("---\nchainId: ");
    out.append(chain_id);
    out.append("\nkind: ");
    out.append(chain_kind);
    out.append("\nunit: ");
    append_opt(&mut out, unit);
    out.append("\ncwd: ");
    append_opt(&mut out, cwd);
    out.append("\ntargetRepo: ");
    append_opt(&mut out, target_repo);
    out.append("\nmodel: ");
    append_opt(&mut out, model);
    out.append("\nts: ");
    crate::text::push_decimal(&mut out, ts);
    out.append("\n---\n\n");
    out.append(markdown);
    assert(out@ =~= analysis_document_spec(
        chain_id@,
        chain_kind@,
        opt_view(*unit),
        opt_view(*cwd),
        opt_view(*target_repo),
        opt_view(*model),
        ts,
        markdown@,
    ));
    out
}

/// The summary of an analysis kept in the index: its first
/// `ANALYSIS_SUMMARY_CHARS` characters.
pub fn analysis_summary(markdown: &str) -> (r: String)
    ensures
        r@ == if markdown@.len() > ANALYSIS_SUMMARY_CHARS {
            markdown@.take(ANALYSIS_SUMMARY_CHARS as int)
        } else {
            markdown@
        },
{
    let chars = to_chars(markdown);
    let end = if chars.len() > ANALYSIS_SUMMARY_CHARS { ANALYSIS_SUMMARY_CHARS } else { chars.len() };
    let mut out = String::new();
    crate::text::append_chars(&mut out, &chars, 0, end);
    assert(out@ =~= if markdown@.len() > ANALYSIS_SUMMARY_CHARS {
        markdown@.take(ANALYSIS_SUMMARY_CHARS as int)
    } else {
        markdown@
    });
    out
}

/// A JSON string, or `null` when missing.
pub open spec fn str_or_null(v: Option<Seq<char>>) -> JsonView {
    match v {
        Some(s) => JsonView::Str(s),
        None => JsonView::Null,
    }
}

fn str_or_null_json(v: &Option<String>) -> (r: Json)
    ensures
        r@ == str_or_null(opt_view(*v)),
{
    match v {
        Some(s) => Json::Str(s.clone()),
        None => Json::Null,
    }
}

/// The index record of a saved analysis.
pub open spec fn analysis_record_spec(
    chain_id: Seq<char>,
    chain_kind: Seq<char>,
    unit: Option<Seq<char>>,
    cwd: Option<Seq<char>>,
    target_repo: Option<Seq<char>>,
    model: Option<Seq<char>>,
    path: Seq<char>,
    ts: u64,
    summary: Seq<char>,
) -> JsonView {
    JsonView::Object(
        seq![
            ("chainId"@, JsonView::Str(chain_id)),
            ("kind"@, JsonView::Str(chain_kind)),
            ("unit"@, str_or_null(unit)),
            ("cwd"@, str_or_null(cwd)),
            ("targetRepo"@, str_or_null(target_repo)),
            ("model"@, str_or_null(model)),
            ("path"@, JsonView::Str(path)),
            ("ts"@, JsonView::Number(crate::text::decimal(ts as nat))),
            ("summary"@, JsonView::Str(summary)),
        ],
    )
}

/// Builds the index record of a saved analysis (see
/// [`analysis_record_spec`]).
pub fn analysis_record(
    chain_id: &str,
    chain_kind: &str,
    unit: &Option<String>,
    cwd: &Option<String>,
    target_repo: &Option<String>,
    model: &Option<String>,
    path: &str,
    ts: u64,
    summary: &str,
) -> (r: Json)
    ensures
        r@ == analysis_record_spec(
            chain_id@,
            chain_kind@,
            opt_view(*unit),
            opt_view(*cwd),
            opt_view(*target_repo),
            opt_view(*model),
            path@,
            ts,
            summary@,
        ),
{
    let mut fields: Vec<(String, Json)> = Vec::new();
    fields.push(("chainId".to_owned(), Json::Str(chain_id.to_owned())));
    fields.push(("kind".to_owned(), Json::Str(chain_kind.to_owned())));
    fields.push(("unit".to_owned(), str_or_null_json(unit)));
    fields.push(("cwd".to_owned(), str_or_null_json(cwd)));
    fields.push(("targetRepo".to_owned(), str_or_null_json(target_repo)));
    fields.push(("model".to_owned(), str_or_null_json(model)));
    fields.push(("path".to_owned(), Json::Str(path.to_owned())));
    fields.push(("ts".to_owned(), Json::Number(crate::text::decimal_string(ts))));
    fields.push(("summary".to_owned(), Json::Str(summary.to_owned())));
    let r = Json::Object(fields);
    proof {
        reveal_with_fuel(crate::json::json_view, 2);
    }
    assert(r@->Object_0 =~= analysis_record_spec(
        chain_id@,
        chain_kind@,
        opt_view(*unit),
        opt_view(*cwd),
        opt_view(*target_repo),
        opt_view(*model),
        path@,
        ts,
        summary@,
    )->Object_0);
    r
}

/// The records of the analyses index: each trimmed line that is JSON.
pub fn analysis_index_records(text: &str) -> (r: Vec<Json>)
    ensures
        json_seq(r@) == trimmed_parsed(lines_spec(text@)),
{
    let lines = split_lines(text);
    proof {
        assert(strings_view(lines@) =~= lines_spec(text@));
        assert(strings_view(lines@).skip(0) =~= strings_view(lines@));
    }
    parse_trimmed_lines(&lines, 0)
}

/// `std::time::SystemTime`, carried through unopened.
#[verifier::external_type_specification]
#[verifier::external_body]
pub struct ExSystemTime(std::time::SystemTime);

/// `SystemTime::now`. The clock's reading; nothing is claimed of it.
#[verifier::external_body]
fn system_now() -> std::time::SystemTime {
    std::time::SystemTime::now()
}

/// `SystemTime::duration_since(UNIX_EPOCH)`, with its error (a time before
/// the epoch) as `None`. Nothing is claimed of the duration.
#[verifier::external_body]
fn since_unix_epoch(t: &std::time::SystemTime) -> Option<std::time::Duration> {
    t.duration_since(std::time::UNIX_EPOCH).ok()
}

/// `Duration::as_millis`. Nothing is claimed of the value.
#[verifier::external_body]
fn duration_millis(d: &std::time::Duration) -> u128 {
    d.as_millis()
}

/// A millisecond count cut to 64 bits, as an `as u64` cast does.
pub fn millis_u64(ms: u128) -> (r: u64)
    ensures
        r as int == ms as int % 0x1_0000_0000_0000_0000,
{
    let r = ms as u64;
    assert(r == ms % 0x1_0000_0000_0000_0000) by (bit_vector)
        requires
            r == ms as u64,
    ;
    r
}

/// Unix time in milliseconds; 0 for a clock set before the epoch. What the
/// clock reads is not claimed.
pub fn chrono_like_now_ms() -> u64 {
    match since_unix_epoch(&system_now()) {
        Some(d) => millis_u64(duration_millis(&d)),
        None => 0,
    }
}

/// A date and its daily file name determine each other: the name of a
/// well-shaped date reads back as that date, and a name that reads as a
/// date is exactly `llm-trace-` + the date + `.jsonl`.
pub proof fn lemma_daily_file_date_roundtrip(d: Seq<char>, name: Seq<char>)
    ensures
        is_date_shape(d) ==> daily_file_date_spec("llm-trace-"@ + d + ".jsonl"@) == Some(d),
        daily_file_date_spec(name) matches Some(x) ==> is_date_shape(x) && name == "llm-trace-"@ + x
            + ".jsonl"@,
{
    reveal_strlit("llm-trace-");
    reveal_strlit(".jsonl");
    let p = "llm-trace-"@;
    let x = ".jsonl"@;
    if is_date_shape(d) {
        let n = p + d + x;
        assert(n.take(p.len() as int) =~= p);
        assert(n.skip(p.len() as int) =~= d + x);
        assert((d + x).skip((d + x).len() - x.len()) =~= x);
        assert(n.subrange(p.len() as int, n.len() - x.len()) =~= d);
    }
    if daily_file_date_spec(name) is Some {
        let dd = name.subrange(p.len() as int, name.len() - x.len());
        let rest = name.skip(p.len() as int);
        assert(rest.skip(rest.len() - x.len()) =~= name.skip(name.len() - x.len()));
        assert(name =~= name.take(p.len() as int) + dd + name.skip(name.len() - x.len()));
    }
}

proof fn lemma_dated_names(names: Seq<Seq<char>>)
    ensures
        forall|i: int| 0 <= i < dated_names(names).len() ==> {
            let e = #[trigger] dated_names(names)[i];
            &&& daily_file_date_spec(e.1) == Some(e.0)
            &&& names.contains(e.1)
        },
        forall|j: int| 0 <= j < names.len() && (#[trigger] daily_file_date_spec(names[j])) is Some ==> dated_names(
            names,
        ).contains((daily_file_date_spec(names[j]).unwrap(), names[j])),
    decreases names.len(),
{
    if names.len() > 0 {
        let nd = names.drop_last();
        lemma_dated_names(nd);
        let acc = dated_names(nd);
        let r = dated_names(names);
        assert forall|i: int| 0 <= i < r.len() implies {
            let e = #[trigger] r[i];
            &&& daily_file_date_spec(e.1) == Some(e.0)
            &&& names.contains(e.1)
        } by {
            if i < acc.len() {
                assert(r[i] == acc[i]);
                let j = choose|j: int| 0 <= j < nd.len() && nd[j] == acc[i].1;
                assert(names[j] == nd[j]);
            } else {
                assert(names[names.len() - 1] == names.last());
            }
        }
        assert forall|j: int| 0 <= j < names.len() && (#[trigger] daily_file_date_spec(names[j])) is Some implies r.contains(
            (daily_file_date_spec(names[j]).unwrap(), names[j]),
        ) by {
            let e = (daily_file_date_spec(names[j]).unwrap(), names[j]);
            if j < nd.len() {
                assert(nd[j] == names[j]);
                let i = choose|i: int| 0 <= i < acc.len() && acc[i] == e;
                if daily_file_date_spec(names.last()) is Some {
                    assert(r[i] == acc[i]);
                }
            } else {
                assert(r[r.len() - 1] == e);
            }
        }
    }
}

/// The daily trace files are exactly the names of the writer's shape, each
/// once per occurrence, ordered by their dates (oldest first).
pub proof fn lemma_daily_names(names: Seq<Seq<char>>)
    ensures
        forall|i: int|
            0 <= i < daily_names_spec(names).len() ==> (#[trigger] daily_file_date_spec(
                daily_names_spec(names)[i],
            )) is Some && names.contains(daily_names_spec(names)[i]),
        forall|i: int, j: int|
            0 <= i < j < daily_names_spec(names).len() ==> !str_lt(
                daily_file_date_spec(#[trigger] daily_names_spec(names)[j]).unwrap(),
                daily_file_date_spec(#[trigger] daily_names_spec(names)[i]).unwrap(),
            ),
        forall|j: int|
            0 <= j < names.len() && (#[trigger] daily_file_date_spec(names[j])) is Some ==> daily_names_spec(
                names,
            ).contains(names[j]),
{
    broadcast use vstd::seq_lib::to_multiset_contains;

    let dn = dated_names(names);
    lemma_dated_names(names);
    lemma_isort_text_sorted(dn);
    let sorted = isort_text(dn);
    let r = daily_names_spec(names);
    assert forall|i: int| 0 <= i < sorted.len() implies daily_file_date_spec(#[trigger] sorted[i].1) == Some(
        sorted[i].0,
    ) && names.contains(sorted[i].1) by {
        assert(sorted.contains(sorted[i]));
        assert(sorted.to_multiset().count(sorted[i]) > 0);
        assert(dn.to_multiset().count(sorted[i]) > 0);
        let k = choose|k: int| 0 <= k < dn.len() && dn[k] == sorted[i];
        assert(dn[k] == sorted[i]);
    }
    assert forall|i: int| 0 <= i < r.len() implies (#[trigger] daily_file_date_spec(r[i])) is Some && names.contains(
        r[i],
    ) by {
        assert(r[i] == sorted[i].1);
    }
    assert forall|i: int, j: int| 0 <= i < j < r.len() implies !str_lt(
        daily_file_date_spec(#[trigger] r[j]).unwrap(),
        daily_file_date_spec(#[trigger] r[i]).unwrap(),
    ) by {
        assert(r[i] == sorted[i].1);
        assert(r[j] == sorted[j].1);
        assert(daily_file_date_spec(sorted[i].1) == Some(sorted[i].0));
        assert(daily_file_date_spec(sorted[j].1) == Some(sorted[j].0));
    }
    assert forall|j: int| 0 <= j < names.len() && (#[trigger] daily_file_date_spec(names[j])) is Some implies r.contains(
        names[j],
    ) by {
        let e = (daily_file_date_spec(names[j]).unwrap(), names[j]);
        assert(dn.contains(e));
        assert(dn.to_multiset().count(e) > 0);
        assert(sorted.to_multiset().count(e) > 0);
        let k = choose|k: int| 0 <= k < sorted.len() && sorted[k] == e;
        assert(r[k] == names[j]);
    }
}

proof fn lemma_chain_records(rs: Seq<JsonView>)
    ensures
        forall|i: int| 0 <= i < chain_records_of(rs).len() ==> is_chain_record(#[trigger] chain_records_of(rs)[i]),
        forall|j: int| 0 <= j < rs.len() && is_chain_record(#[trigger] rs[j]) ==> chain_records_of(rs).contains(rs[j]),
    decreases rs.len(),
{
    if rs.len() > 0 {
        let rd = rs.drop_last();
        lemma_chain_records(rd);
        let acc = chain_records_of(rd);
        let c = chain_records_of(rs);
        assert forall|i: int| 0 <= i < c.len() implies is_chain_record(#[trigger] c[i]) by {
            if i < acc.len() {
                assert(c[i] == acc[i]);
            }
        }
        assert forall|j: int| 0 <= j < rs.len() && is_chain_record(#[trigger] rs[j]) implies c.contains(rs[j]) by {
            if j < rd.len() {
                assert(rd[j] == rs[j]);
                let i = choose|i: int| 0 <= i < acc.len() && acc[i] == rs[j];
                if is_chain_record(rs.last()) {
                    assert(c[i] == acc[i]);
                }
            } else {
                assert(c[c.len() - 1] == rs[j]);
            }
        }
    }
}

/// The chain list holds only chains' final records, at most `limit` of
/// them: the latest ones, in order; every chain is listed while there are
/// no more than `limit`.
pub proof fn lemma_chains_list(rs: Seq<JsonView>, limit: nat)
    ensures
        chains_list_spec(rs, limit).len() <= limit,
        forall|i: int| 0 <= i < chains_list_spec(rs, limit).len() ==> is_chain_record(
            #[trigger] chains_list_spec(rs, limit)[i],
        ),
        chains_list_spec(rs, limit) == chain_records_of(rs).skip(
            chain_records_of(rs).len() - chains_list_spec(rs, limit).len(),
        ),
        chain_records_of(rs).len() <= limit ==> forall|j: int|
            0 <= j < rs.len() && is_chain_record(#[trigger] rs[j]) ==> chains_list_spec(rs, limit).contains(rs[j]),
{
    lemma_chain_records(rs);
    let c = chain_records_of(rs);
    let r = chains_list_spec(rs, limit);
    if c.len() > limit {
        assert forall|i: int| 0 <= i < r.len() implies is_chain_record(#[trigger] r[i]) by {
            assert(r[i] == c[i + c.len() - limit]);
        }
    } else {
        assert(c.skip(0) =~= c);
    }
}

proof fn lemma_chain_steps_of(rs: Seq<JsonView>, id: Seq<char>)
    ensures
        forall|i: int| 0 <= i < chain_steps_of(rs, id).len() ==> is_step_of(#[trigger] chain_steps_of(rs, id)[i], id),
        forall|j: int| 0 <= j < rs.len() && is_step_of(#[trigger] rs[j], id) ==> chain_steps_of(rs, id).contains(rs[j]),
    decreases rs.len(),
{
    if rs.len() > 0 {
        let rd = rs.drop_last();
        lemma_chain_steps_of(rd, id);
        let acc = chain_steps_of(rd, id);
        let c = chain_steps_of(rs, id);
        assert forall|i: int| 0 <= i < c.len() implies is_step_of(#[trigger] c[i], id) by {
            if i < acc.len() {
                assert(c[i] == acc[i]);
            }
        }
        assert forall|j: int| 0 <= j < rs.len() && is_step_of(#[trigger] rs[j], id) implies c.contains(rs[j]) by {
            if j < rd.len() {
                assert(rd[j] == rs[j]);
                let i = choose|i: int| 0 <= i < acc.len() && acc[i] == rs[j];
                if is_step_of(rs.last(), id) {
                    assert(c[i] == acc[i]);
                }
            } else {
                assert(c[c.len() - 1] == rs[j]);
            }
        }
    }
}

/// The steps of a chain are exactly its per-call records: each listed
/// record carries the chain's id and is not its final record, and every
/// such record is listed.
pub proof fn lemma_chain_steps(rs: Seq<JsonView>, id: Seq<char>)
    ensures
        forall|i: int| 0 <= i < chain_steps_of(rs, id).len() ==> is_step_of(#[trigger] chain_steps_of(rs, id)[i], id),
        forall|j: int| 0 <= j < rs.len() && is_step_of(#[trigger] rs[j], id) ==> chain_steps_of(rs, id).contains(rs[j]),
{
    lemma_chain_steps_of(rs, id);
}

proof fn lemma_keyed_bodies(texts: Seq<Seq<char>>)
    ensures
        forall|i: int| 0 <= i < keyed_bodies(texts).len() ==> (#[trigger] keyed_bodies(texts)[i]).0 == step_key(
            keyed_bodies(texts)[i].1,
        ),
    decreases texts.len(),
{
    if texts.len() > 0 {
        lemma_keyed_bodies(texts.drop_last());
        let acc = keyed_bodies(texts.drop_last());
        assert forall|i: int| 0 <= i < keyed_bodies(texts).len() implies (#[trigger] keyed_bodies(texts)[i]).0
            == step_key(keyed_bodies(texts)[i].1) by {
            if i < acc.len() {
                assert(keyed_bodies(texts)[i] == acc[i]);
            }
        }
    }
}

/// The captured bodies come out ordered by their `chainStep` (a missing
/// step counting as 0).
pub proof fn lemma_body_captures_sorted(texts: Seq<Seq<char>>)
    ensures
        forall|i: int, j: int|
            0 <= i < j < body_captures_spec(texts).len() ==> step_key(#[trigger] body_captures_spec(texts)[i])
                <= step_key(#[trigger] body_captures_spec(texts)[j]),
{
    broadcast use vstd::seq_lib::to_multiset_contains;

    let kb = keyed_bodies(texts);
    lemma_keyed_bodies(texts);
    lemma_isort_num_sorted(kb);
    let sorted = isort_num(kb);
    let r = body_captures_spec(texts);
    assert forall|i: int| 0 <= i < sorted.len() implies (#[trigger] sorted[i]).0 == step_key(sorted[i].1) by {
        assert(sorted.contains(sorted[i]));
        assert(sorted.to_multiset().count(sorted[i]) > 0);
        assert(kb.to_multiset().count(sorted[i]) > 0);
        let k = choose|k: int| 0 <= k < kb.len() && kb[k] == sorted[i];
        assert(kb[k] == sorted[i]);
    }
    assert forall|i: int, j: int| 0 <= i < j < r.len() implies step_key(#[trigger] r[i]) <= step_key(
        #[trigger] r[j],
    ) by {
        assert(r[i] == sorted[i].1);
        assert(r[j] == sorted[j].1);
        assert(sorted[i].0 == step_key(sorted[i].1));
        assert(sorted[j].0 == step_key(sorted[j].1));
    }
}

/// A path component made safe keeps its length and its safe characters,
/// and holds nothing but safe characters.
pub proof fn lemma_safe_component(s: Seq<char>)
    ensures
        safe_component_spec(s).len() == s.len(),
        forall|i: int| 0 <= i < s.len() ==> is_safe_char(#[trigger] safe_component_spec(s)[i]),
        forall|i: int| 0 <= i < s.len() && is_safe_char(s[i]) ==> #[trigger] safe_component_spec(s)[i] == s[i],
{
}

} // verus!
