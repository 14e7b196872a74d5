//! Model choices for launching the external coding agent `pi` in the
//! directory of a proxied request's client: every `N_<TIER>_MODEL`
//! environment variable names one model.

use vstd::prelude::*;
use crate::sort::{
    isort_text, key_run, keyed_view, lemma_isort_text_map, lemma_isort_text_sorted,
    lemma_isort_text_stable, sort_by_text_key, sorted_by_text,
};
use crate::text::{
    ends_with_seq, lossy_string, push_char, push_signed_decimal, signed_decimal, starts_with_at,
    starts_with_seq, to_chars, utf8_lossy,
};
use vstd::string::StrSliceExecFns;

verus! {

/// One model the agent can be started with.
#[derive(Debug, PartialEq, Eq, Clone)]
pub struct PiModelOption {
    /// Name of the environment variable (e.g. `N_CLOUD_MAX_MODEL`): the
    /// stable key for the UI.
    pub key: String,
    /// Readable label derived from the key (e.g. `CLOUD MAX`).
    pub label: String,
    /// Value for `pi --model` (e.g. `openai-codex/gpt-5.5`).
    pub model: String,
}

/// The short system prompt the agent runs with in place of its default one
/// and the context files it would otherwise load on every turn.
pub const SYSTEM_PROMPT: &'static str = "Ти кодинг-асистент із read/bash/edit/write доступом до поточної директорії. Аналізуй запит користувача і, де це доречно, вноси зміни в код проєкту.";

/// A failed run of the agent.
#[derive(Debug)]
pub enum PiAgentError {
    /// The agent could not be started; the shell plugin's description.
    Spawn(String),
    /// The agent ended with a failure status.
    NonZeroExit { code: Option<i32>, stderr: String },
}

/// `{:?}` of an optional exit code: `Some(<n>)` or `None`.
pub open spec fn exit_code_text(code: Option<i32>) -> Seq<char> {
    match code {
        Some(c) => "Some("@ + signed_decimal(c as int) + ")"@,
        None => "None"@,
    }
}

/// The text a [`PiAgentError`] is shown as.
pub open spec fn pi_agent_error_text(e: PiAgentError) -> Seq<char> {
    match e {
        PiAgentError::Spawn(m) => "не вдалось запустити `pi`: "@ + m@,
        PiAgentError::NonZeroExit { code, stderr } => "pi завершився з кодом "@ + exit_code_text(code)
            + ": "@ + stderr@,
    }
}

impl PiAgentError {
    /// The text the error is shown as (see [`pi_agent_error_text`]).
    pub fn message(&self) -> (r: String)
        ensures
            r@ == pi_agent_error_text(*self),
    {
        match self {
            PiAgentError::Spawn(m) => {
                let mut s = "не вдалось запустити `pi`: ".to_owned();
                s.append(m.as_str());
                s
            },
            PiAgentError::NonZeroExit { code, stderr } => {
                let mut s = "pi завершився з кодом ".to_owned();
                match code {
                    Some(c) => {
                        s.append("Some(");
                        push_signed_decimal(&mut s, *c);
                        s.append(")");
                    },
                    None => s.append("None"),
                }
                s.append(": ");
                s.append(stderr.as_str());
                s
            },
        }
    }
}

/// The arguments of one agent turn: print mode, the model, the session,
/// no context files, the short system prompt, then the prompt itself.
pub open spec fn pi_args_spec(model: Seq<char>, session_id: Seq<char>, prompt: Seq<char>) -> Seq<
    Seq<char>,
> {
    seq![
        "--print"@,
        "--model"@,
        model,
        "--session-id"@,
        session_id,
        "--no-context-files"@,
        "--system-prompt"@,
        SYSTEM_PROMPT@,
        prompt,
    ]
}

/// The command-line arguments of one agent turn (see [`pi_args_spec`]).
pub fn pi_args(model: &str, session_id: &str, prompt: &str) -> (r: Vec<String>)
    ensures
        r@.len() == 9,
        forall|i: int| 0 <= i < 9 ==> #[trigger] r@[i]@ == pi_args_spec(model@, session_id@, prompt@)[i],
{
    let mut v: Vec<String> = Vec::new();
    v.push("--print".to_owned());
    v.push("--model".to_owned());
    v.push(model.to_owned());
    v.push("--session-id".to_owned());
    v.push(session_id.to_owned());
    v.push("--no-context-files".to_owned());
    v.push("--system-prompt".to_owned());
    v.push(SYSTEM_PROMPT.to_owned());
    v.push(prompt.to_owned());
    v
}

/// The outcome of a finished agent turn: its standard output as text on
/// success; else the exit code with the standard error as text.
pub fn pi_outcome(success: bool, code: Option<i32>, stdout: &[u8], stderr: &[u8]) -> (r: Result<
    String,
    PiAgentError,
>)
    ensures
        success ==> (r matches Ok(out) && out@ == utf8_lossy(stdout@)),
        !success ==> (r matches Err(PiAgentError::NonZeroExit { code: c, stderr: e }) && c == code
            && e@ == utf8_lossy(stderr@)),
{
    if !success {
        return Err(PiAgentError::NonZeroExit { code, stderr: lossy_string(stderr) });
    }
    Ok(lossy_string(stdout))
}

/// `s` with every leading repetition of `p` removed (`trim_start_matches`).
pub open spec fn trim_start_matches(s: Seq<char>, p: Seq<char>) -> Seq<char>
    decreases s.len(),
{
    if p.len() > 0 && starts_with_seq(s, p) {
        trim_start_matches(s.skip(p.len() as int), p)
    } else {
        s
    }
}

/// `s` with every trailing repetition of `p` removed (`trim_end_matches`).
pub open spec fn trim_end_matches(s: Seq<char>, p: Seq<char>) -> Seq<char>
    decreases s.len(),
{
    if p.len() > 0 && ends_with_seq(s, p) {
        trim_end_matches(s.take(s.len() - p.len()), p)
    } else {
        s
    }
}

/// `s` with each `_` replaced by a space.
pub open spec fn underscores_to_spaces(s: Seq<char>) -> Seq<char> {
    Seq::new(s.len(), |i: int| if s[i] == '_' { ' ' } else { s[i] })
}

/// Whether an environment variable names an agent model: its key is
/// `N_..._MODEL` and its value is not empty.
pub open spec fn is_model_var(key: Seq<char>, value: Seq<char>) -> bool {
    starts_with_seq(key, "N_"@) && ends_with_seq(key, "_MODEL"@) && value.len() > 0
}

/// The label of a model key: without the leading `N_`s and the trailing
/// `_MODEL`s, underscores as spaces.
pub open spec fn model_label(key: Seq<char>) -> Seq<char> {
    underscores_to_spaces(trim_end_matches(trim_start_matches(key, "N_"@), "_MODEL"@))
}

/// The model variables among `vars`, in input order, as
/// `(key, (label, model))`.
pub open spec fn model_options(vars: Seq<(Seq<char>, Seq<char>)>) -> Seq<(Seq<char>, (Seq<char>, Seq<char>))>
    decreases vars.len(),
{
    if vars.len() == 0 {
        Seq::empty()
    } else {
        let acc = model_options(vars.drop_last());
        let (k, v) = vars.last();
        if is_model_var(k, v) {
            acc.push((k, (model_label(k), v)))
        } else {
            acc
        }
    }
}

/// The model choices: the model variables, sorted by key (stable).
pub open spec fn pi_models_spec(vars: Seq<(Seq<char>, Seq<char>)>) -> Seq<(Seq<char>, (Seq<char>, Seq<char>))> {
    isort_text(model_options(vars))
}

/// Variables as character sequences.
pub open spec fn vars_view(v: Seq<(String, String)>) -> Seq<(Seq<char>, Seq<char>)> {
    Seq::new(v.len(), |i: int| (v[i].0@, v[i].1@))
}

/// A model choice as character sequences.
pub open spec fn option_view(o: PiModelOption) -> (Seq<char>, (Seq<char>, Seq<char>)) {
    (o.key@, (o.label@, o.model@))
}

/// Whether `s[..to]` ends with `p`.
fn ends_with_before(s: &Vec<char>, from: usize, to: usize, p: &Vec<char>) -> (r: bool)
    requires
        from <= to <= s@.len(),
    ensures
        r == ends_with_seq(s@.subrange(from as int, to as int), p@),
{
    let pn = p.len();
    if pn > to - from {
        return false;
    }
    let start = to - pn;
    let mut j: usize = 0;
    while j < pn
        invariant
            pn == p@.len(),
            start + pn == to,
            from <= start,
            to <= s@.len(),
            j <= pn,
            forall|m: int| 0 <= m < j ==> s@[start + m] == p@[m],
        decreases pn - j,
    {
        if s[start + j] != p[j] {
            assert(s@.subrange(from as int, to as int).skip(start - from)[j as int] != p@[j as int]);
            return false;
        }
        j = j + 1;
    }
    assert(s@.subrange(from as int, to as int).skip(start - from) =~= p@);
    true
}

/// The label of a model key (see [`model_label`]).
pub fn label_for_key(key: &str) -> (r: String)
    ensures
        r@ == model_label(key@),
{
    let chars = to_chars(key);
    let n = chars.len();
    let lead = to_chars("N_");
    let tail = to_chars("_MODEL");
    let mut a: usize = 0;
    proof {
        assert(key@.skip(0) =~= key@);
    }
    while starts_with_at(&chars, a, "N_") && lead.len() > 0
        invariant
            chars@ == key@,
            n == key@.len(),
            lead@ == "N_"@,
            a <= n,
            trim_start_matches(key@, "N_"@) == trim_start_matches(key@.skip(a as int), "N_"@),
        decreases n - a,
    {
        proof {
            assert(key@.skip(a as int).skip(lead@.len() as int) =~= key@.skip(a + lead@.len()));
        }
        a = a + lead.len();
    }
    let mut b: usize = n;
    proof {
        assert(key@.skip(a as int) =~= key@.subrange(a as int, n as int));
    }
    while tail.len() > 0 && ends_with_before(&chars, a, b, &tail)
        invariant
            chars@ == key@,
            n == key@.len(),
            tail@ == "_MODEL"@,
            a <= b <= n,
            trim_end_matches(trim_start_matches(key@, "N_"@), "_MODEL"@) == trim_end_matches(
                key@.subrange(a as int, b as int),
                "_MODEL"@,
            ),
        decreases b - a,
    {
        proof {
            assert(key@.subrange(a as int, b as int).take(b - a - tail@.len()) =~= key@.subrange(
                a as int,
                b - tail@.len(),
            ));
        }
        b = b - tail.len();
    }
    let mut out = String::new();
    let mut k: usize = a;
    while k < b
        invariant
            chars@ == key@,
            a <= k <= b <= n,
            n == key@.len(),
            out@ == underscores_to_spaces(key@.subrange(a as int, k as int)),
        decreases b - k,
    {
        let c = chars[k];
        push_char(&mut out, if c == '_' { ' ' } else { c });
        k = k + 1;
        assert(out@ =~= underscores_to_spaces(key@.subrange(a as int, k as int)));
    }
    out
}

/// The agent's model choices among environment variables: every
/// `N_..._MODEL` variable with a non-empty value, sorted by key.
pub fn pi_agent_models_from_env(vars: Vec<(String, String)>) -> (r: Vec<PiModelOption>)
    ensures
        r@.len() == pi_models_spec(vars_view(vars@)).len(),
        forall|i: int| 0 <= i < r@.len() ==> option_view(#[trigger] r@[i]) == pi_models_spec(vars_view(vars@))[i],
{
    let ghost vv = vars_view(vars@);
    let mut keyed: Vec<(String, PiModelOption)> = Vec::new();
    let mut k: usize = 0;
    while k < vars.len()
        invariant
            vv == vars_view(vars@),
            k <= vars@.len(),
            keyed@.len() == model_options(vv.take(k as int)).len(),
            forall|i: int| 0 <= i < keyed@.len() ==> (#[trigger] keyed@[i]).0@ == model_options(vv.take(k as int))[i].0
                && option_view(keyed@[i].1) == model_options(vv.take(k as int))[i]
                && keyed@[i].0@ == keyed@[i].1.key@,
        decreases vars@.len() - k,
    {
        let key = &vars[k].0;
        let model = &vars[k].1;
        let kc = to_chars(key.as_str());
        proof {
            assert(vv.take(k + 1).drop_last() =~= vv.take(k as int));
            assert(vv.take(k + 1).last() == (key@, model@));
            assert(kc@.skip(0) =~= key@);
        }
        if starts_with_at(&kc, 0, "N_") && ends_with_before(&kc, 0, kc.len(), &to_chars("_MODEL"))
            && model.as_str().unicode_len() > 0 {
            proof {
                assert(kc@.subrange(0, kc@.len() as int) =~= key@);
            }
            let option = PiModelOption {
                key: key.clone(),
                label: label_for_key(key.as_str()),
                model: model.clone(),
            };
            keyed.push((key.clone(), option));
        } else {
            proof {
                assert(kc@.subrange(0, kc@.len() as int) =~= key@);
            }
        }
        k = k + 1;
    }
    proof {
        assert(vv.take(vars@.len() as int) =~= vv);
    }
    let ghost kv = keyed_view(keyed@);
    let ghost opts = model_options(vv);
    proof {
        let f = |o: PiModelOption| (o.label@, o.model@);
        assert forall|i: int| 0 <= i < kv.len() implies (#[trigger] opts[i]).0 == kv[i].0 && opts[i].1 == f(
            kv[i].1,
        ) by {
            assert(kv[i] == (keyed@[i].0@, keyed@[i].1));
        }
        lemma_isort_text_map(kv, opts, f);
        let has_key = |x: (Seq<char>, PiModelOption)| x.0 == x.1.key@;
        assert forall|i: int| 0 <= i < kv.len() implies has_key(#[trigger] kv[i]) by {
            assert(kv[i] == (keyed@[i].0@, keyed@[i].1));
        }
        crate::sort::lemma_isort_text_preserves(kv, has_key);
    }
    let sorted = sort_by_text_key(keyed);
    let n = sorted.len();
    let mut rest = crate::json::reversed(sorted);
    let mut out: Vec<PiModelOption> = Vec::new();
    let ghost target = pi_models_spec(vv);
    let ghost sv = isort_text(kv);
    proof {
        crate::sort::lemma_isort_text_len(kv);
    }
    while out.len() < n
        invariant
            target == isort_text(opts),
            sv == isort_text(kv),
            target.len() == sv.len(),
            sv.len() == n,
            forall|i: int| 0 <= i < sv.len() ==> (#[trigger] target[i]).0 == sv[i].0 && target[i].1 == (
                sv[i].1.label@,
                sv[i].1.model@,
            ),
            forall|i: int| 0 <= i < sv.len() ==> (#[trigger] sv[i]).0 == sv[i].1.key@,
            out@.len() <= n,
            rest@.len() == n - out@.len(),
            forall|j: int| 0 <= j < rest@.len() ==> (#[trigger] rest@[j]).1 == sv[n - 1 - j].1,
            forall|i: int| 0 <= i < out@.len() ==> option_view(#[trigger] out@[i]) == target[i],
        decreases n - out@.len(),
    {
        let (_, option) = rest.pop().unwrap();
        out.push(option);
    }
    out
}

proof fn lemma_model_options(vars: Seq<(Seq<char>, Seq<char>)>)
    ensures
        forall|i: int| 0 <= i < model_options(vars).len() ==> {
            let o = #[trigger] model_options(vars)[i];
            &&& is_model_var(o.0, o.1.1)
            &&& o.1.0 == model_label(o.0)
            &&& vars.contains((o.0, o.1.1))
        },
        forall|j: int| 0 <= j < vars.len() && is_model_var(#[trigger] vars[j].0, vars[j].1) ==> model_options(
            vars,
        ).contains((vars[j].0, (model_label(vars[j].0), vars[j].1))),
    decreases vars.len(),
{
    if vars.len() > 0 {
        let vd = vars.drop_last();
        lemma_model_options(vd);
        let acc = model_options(vd);
        assert forall|i: int| 0 <= i < model_options(vars).len() implies {
            let o = #[trigger] model_options(vars)[i];
            &&& is_model_var(o.0, o.1.1)
            &&& o.1.0 == model_label(o.0)
            &&& vars.contains((o.0, o.1.1))
        } by {
            let o = model_options(vars)[i];
            if i < acc.len() {
                assert(o == acc[i]);
                let j = choose|j: int| 0 <= j < vd.len() && vd[j] == (o.0, o.1.1);
                assert(vars[j] == vd[j]);
            } else {
                assert(vars[vars.len() - 1] == vars.last());
            }
        }
        assert forall|j: int| 0 <= j < vars.len() && is_model_var(#[trigger] vars[j].0, vars[j].1) implies model_options(
            vars,
        ).contains((vars[j].0, (model_label(vars[j].0), vars[j].1))) by {
            let x = (vars[j].0, (model_label(vars[j].0), vars[j].1));
            if j < vd.len() {
                assert(vd[j] == vars[j]);
                let i = choose|i: int| 0 <= i < acc.len() && acc[i] == x;
                let (k, v) = vars.last();
                if is_model_var(k, v) {
                    assert(model_options(vars)[i] == acc[i]);
                }
            } else {
                assert(model_options(vars)[model_options(vars).len() - 1] == x);
            }
        }
    }
}

/// The model choices are every `N_..._MODEL` variable with a non-empty
/// value, each once per occurrence, with its derived label, sorted by key
/// (choices of one key keep the order of their variables); nothing else is
/// listed.
pub proof fn lemma_pi_models(vars: Seq<(Seq<char>, Seq<char>)>)
    ensures
        sorted_by_text(pi_models_spec(vars)),
        forall|k: Seq<char>| #[trigger] key_run(pi_models_spec(vars), k) == key_run(model_options(vars), k),
        pi_models_spec(vars).to_multiset() == model_options(vars).to_multiset(),
        forall|i: int| 0 <= i < pi_models_spec(vars).len() ==> {
            let o = #[trigger] pi_models_spec(vars)[i];
            &&& is_model_var(o.0, o.1.1)
            &&& o.1.0 == model_label(o.0)
            &&& vars.contains((o.0, o.1.1))
        },
        forall|j: int| 0 <= j < vars.len() && is_model_var(#[trigger] vars[j].0, vars[j].1) ==> pi_models_spec(
            vars,
        ).contains((vars[j].0, (model_label(vars[j].0), vars[j].1))),
{
    broadcast use vstd::seq_lib::to_multiset_contains;

    let opts = model_options(vars);
    lemma_model_options(vars);
    lemma_isort_text_sorted(opts);
    assert forall|k: Seq<char>| #[trigger] key_run(pi_models_spec(vars), k) == key_run(opts, k) by {
        lemma_isort_text_stable(opts, k);
    }
    let r = pi_models_spec(vars);
    assert forall|i: int| 0 <= i < r.len() implies {
        let o = #[trigger] r[i];
        &&& is_model_var(o.0, o.1.1)
        &&& o.1.0 == model_label(o.0)
        &&& vars.contains((o.0, o.1.1))
    } by {
        assert(r.contains(r[i]));
        assert(r.to_multiset().count(r[i]) > 0);
        assert(opts.to_multiset().count(r[i]) > 0);
        let k = choose|k: int| 0 <= k < opts.len() && opts[k] == r[i];
        assert(opts[k] == r[i]);
    }
    assert forall|j: int| 0 <= j < vars.len() && is_model_var(#[trigger] vars[j].0, vars[j].1) implies r.contains(
        (vars[j].0, (model_label(vars[j].0), vars[j].1)),
    ) by {
        let x = (vars[j].0, (model_label(vars[j].0), vars[j].1));
        assert(opts.contains(x));
        assert(opts.to_multiset().count(x) > 0);
        assert(r.to_multiset().count(x) > 0);
    }
}

} // verus!
