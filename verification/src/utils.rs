//! Small helpers around function names, command lines and command output.

use crate::json::{Json, JsonValue};
use vstd::prelude::*;
use vstd::string::StringSliceAdditionalSpecFns;
use vstd::string::StringExecFns;

verus! {

/// The exit code by which the `timeout` launcher says that it ended the
/// command.
pub const TIMEOUT_EXIT_CODE: i32 = 124;

/// The name under which the executor is found unless the environment names
/// another.
pub open spec fn default_executor_command() -> Seq<char> {
    "tpt_executor"@
}

/// The directory in which pipelines are looked for unless the environment
/// names another.
pub open spec fn default_directory() -> Seq<char> {
    "./bin"@
}

/// The text is free of braces.
pub open spec fn is_brace(c: char) -> bool {
    c == '{' || c == '}'
}

pub open spec fn keeps_char() -> spec_fn(char) -> bool {
    |c: char| !is_brace(c)
}

/// `k` is where the last colon of `s` stands, or -1 if it has none.
pub open spec fn is_last_colon(s: Seq<char>, k: int) -> bool {
    &&& -1 <= k < s.len()
    &&& k >= 0 ==> s[k] == ':'
    &&& forall|j: int| k < j < s.len() ==> s[j] != ':'
}

pub open spec fn last_colon(s: Seq<char>) -> int {
    choose|k: int| is_last_colon(s, k)
}

/// The short name of a function, given the full name of its type: the full
/// name without braces, from behind its last colon on.
pub open spec fn short_name_of(full: Seq<char>) -> Seq<char> {
    let plain = full.filter(keeps_char());
    plain.subrange(last_colon(plain) + 1, plain.len() as int)
}

proof fn lemma_last_colon(s: Seq<char>, k: int)
    requires
        is_last_colon(s, k),
    ensures
        last_colon(s) == k,
{
    let c = last_colon(s);
    assert(is_last_colon(s, c));
    if c < k {
        assert(s[k] != ':');
    }
    if k < c {
        assert(s[c] != ':');
    }
}

/// The short name of a function, given the full name of its type: the full
/// name without braces, from behind its last colon on.
pub fn function_name_as_string(full: &str) -> (r: String)
    ensures
        r@ == short_name_of(full@),
{
    let n = full.unicode_len();
    let mut plain = String::new();
    let mut i: usize = 0;
    proof {
        reveal(Seq::filter);
        assert(full@.subrange(0, 0) =~= Seq::<char>::empty());
    }
    while i < n
        invariant
            i <= n,
            n == full@.len(),
            plain@ == full@.subrange(0, i as int).filter(keeps_char()),
        decreases n - i,
    {
        let c = full.get_char(i);
        proof {
            let before = full@.subrange(0, i as int);
            assert(full@.subrange(0, i + 1) =~= before.push(c));
            before.lemma_filter_push(c, keeps_char());
        }
        if c != '{' && c != '}' {
            let one = full.substring_char(i, i + 1);
            proof {
                assert(one@ =~= seq![c]);
                assert(plain@ + one@ =~= plain@.push(c));
            }
            plain.append(one);
        }
        i += 1;
    }
    proof {
        assert(full@.subrange(0, n as int) =~= full@);
    }
    let m = plain.as_str().unicode_len();
    let mut k: usize = m;
    while k > 0 && plain.as_str().get_char(k - 1) != ':'
        invariant
            k <= m,
            m == plain@.len(),
            forall|j: int| k <= j < m ==> plain@[j] != ':',
        decreases k,
    {
        k -= 1;
    }
    proof {
        lemma_last_colon(plain@, k as int - 1);
    }
    let tail = plain.as_str().substring_char(k, m);
    String::from_str(tail)
}

/// Hands its arguments on as its result.
pub fn collector(args: Json) -> (r: Json)
    ensures
        r == args,
{
    args
}

/// Whether the exit code of a launched command says that it was ended for
/// taking too long.
pub fn timed_out(exit_code: Option<i32>) -> (r: bool)
    ensures
        r == (exit_code == Some(124i32)),
{
    match exit_code {
        Some(c) => c == TIMEOUT_EXIT_CODE,
        None => false,
    }
}

/// The value found in the environment, or the default.
pub fn get_tpt_executor_command(from_environment: Option<String>) -> (r: String)
    ensures
        r@ == match from_environment {
            Some(v) => v@,
            None => default_executor_command(),
        },
{
    match from_environment {
        Some(v) => v,
        None => "tpt_executor".to_owned(),
    }
}

/// The directory of the pipelines: the value found in the environment, or
/// the default.
pub fn get_pipelines_dir(from_environment: Option<String>) -> (r: String)
    ensures
        r@ == match from_environment {
            Some(v) => v@,
            None => default_directory(),
        },
{
    match from_environment {
        Some(v) => v,
        None => "./bin".to_owned(),
    }
}

/// The directory of the pipelines: the value found in the environment, or
/// the default.
pub fn get_dags_dir(from_environment: Option<String>) -> (r: String)
    ensures
        r@ == match from_environment {
            Some(v) => v@,
            None => default_directory(),
        },
{
    get_pipelines_dir(from_environment)
}

/// No pipeline is found at the path.
#[derive(Clone, Copy, Debug, PartialEq, Eq, Structural)]
pub struct MissingPipeline;

/// The path of a pipeline, given whether something is found there.
pub fn get_pipeline_path_buf_by_name<P>(path: P, exists: bool) -> (r: Result<P, MissingPipeline>)
    ensures
        exists ==> r == Ok::<P, MissingPipeline>(path),
        !exists ==> r is Err,
{
    if !exists {
        return Err(MissingPipeline);
    }
    Ok(path)
}

/// The path of a pipeline, given whether something is found there.
pub fn _get_dag_path_by_name<P>(path: P, exists: bool) -> (r: Option<P>)
    ensures
        exists ==> r == Some(path),
        !exists ==> r is None,
{
    if !exists {
        return None;
    }
    Some(path)
}

/// The value that a command results in, given its output without the white
/// space at its end and what that text parses to as JSON, if it does: the
/// parsed value where the output is to be read as JSON and is JSON, and
/// else the text as a string.
pub open spec fn output_value_of(trimmed: Seq<char>, parsed: Option<JsonValue>,
    as_json: bool) -> JsonValue {
    match parsed {
        Some(v) => if as_json {
            v
        } else {
            JsonValue::Str(trimmed)
        },
        None => JsonValue::Str(trimmed),
    }
}

/// The value that a command results in.
pub fn output_value(trimmed: &str, parsed: Option<Json>, parse_output_as_json: bool) -> (r: Json)
    ensures
        r@ == output_value_of(
            trimmed@,
            match parsed {
                Some(j) => Some(j@),
                None => None,
            },
            parse_output_as_json,
        ),
{
    match parsed {
        Some(v) => if parse_output_as_json {
            v
        } else {
            Json::text(trimmed)
        },
        None => Json::text(trimmed),
    }
}

/// What the numbers that stand for texts stay below.
pub const DIGEST_MODULUS: u64 = 2_305_843_009_213_693_951;

/// By what the number of a text is multiplied for each further byte.
pub const DIGEST_FACTOR: u64 = 1_000_003;

/// The number that stands for a text with these bytes: it starts at 7, and
/// each byte in its turn is added to the number so far times the factor, the
/// sum taken modulo the modulus. It depends on the bytes alone.
pub open spec fn digest_of(bytes: Seq<u8>) -> nat
    decreases bytes.len(),
{
    if bytes.len() == 0 {
        7
    } else {
        (digest_of(bytes.drop_last()) * (DIGEST_FACTOR as nat) + bytes.last() as nat) % (
        DIGEST_MODULUS as nat)
    }
}

/// The number that stands for the text, by which two versions of a pipeline
/// are told apart.
pub fn digest(text: &str) -> (r: u64)
    ensures
        r == digest_of(text.spec_bytes()),
{
    let bytes = text.as_bytes_vec();
    let mut acc: u64 = 7;
    let mut i: usize = 0;
    proof {
        assert(bytes@.subrange(0, 0) =~= Seq::<u8>::empty());
    }
    while i < bytes.len()
        invariant
            i <= bytes.len(),
            bytes@ == text.spec_bytes(),
            acc < DIGEST_MODULUS,
            acc == digest_of(bytes@.subrange(0, i as int)),
        decreases bytes.len() - i,
    {
        let ghost seen = bytes@.subrange(0, i as int);
        let ghost more = bytes@.subrange(0, i + 1);
        proof {
            assert(more.drop_last() =~= seen);
            assert(more.last() == bytes@[i as int]);
        }
        let wide: u128 = acc as u128 * DIGEST_FACTOR as u128 + bytes[i] as u128;
        acc = (wide % DIGEST_MODULUS as u128) as u64;
        i += 1;
    }
    proof {
        assert(bytes@.subrange(0, bytes@.len() as int) =~= bytes@);
    }
    acc
}

} // verus!
