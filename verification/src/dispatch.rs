use vstd::prelude::*;
use vstd::string::StrSliceExecFns;
use crate::config::{FormatterSpec, LanguageChain, NamedFormatter};
use crate::escape::replace_all_spec;
use crate::plugin::FormatError;

verus! {

/// The UTF-8 bytes of a character sequence.
pub open spec fn str_bytes(s: Seq<char>) -> Seq<u8> {
    vstd::utf8::encode_utf8(s)
}

/// The placeholder replaced by the print width, as bytes: `$textwidth`.
pub open spec fn textwidth_pat() -> Seq<u8> {
    seq![36u8, 116u8, 101u8, 120u8, 116u8, 119u8, 105u8, 100u8, 116u8, 104u8]
}

/// The placeholder replaced by the language key, as bytes: `$language`.
pub open spec fn language_pat() -> Seq<u8> {
    seq![36u8, 108u8, 97u8, 110u8, 103u8, 117u8, 97u8, 103u8, 101u8]
}

/// The placeholder replaced by the temp-file path, as bytes: `$file`.
pub open spec fn file_pat() -> Seq<u8> {
    seq![36u8, 102u8, 105u8, 108u8, 101u8]
}

fn bytes_of_textwidth() -> (r: Vec<u8>)
    ensures
        r@ == textwidth_pat(),
{
    let mut r: Vec<u8> = Vec::new();
    r.push(36);
    r.push(116);
    r.push(101);
    r.push(120);
    r.push(116);
    r.push(119);
    r.push(105);
    r.push(100);
    r.push(116);
    r.push(104);
    proof {
        assert(r@ =~= textwidth_pat());
    }
    r
}

fn bytes_of_language() -> (r: Vec<u8>)
    ensures
        r@ == language_pat(),
{
    let mut r: Vec<u8> = Vec::new();
    r.push(36);
    r.push(108);
    r.push(97);
    r.push(110);
    r.push(103);
    r.push(117);
    r.push(97);
    r.push(103);
    r.push(101);
    proof {
        assert(r@ =~= language_pat());
    }
    r
}

fn bytes_of_file() -> (r: Vec<u8>)
    ensures
        r@ == file_pat(),
{
    let mut r: Vec<u8> = Vec::new();
    r.push(36);
    r.push(102);
    r.push(105);
    r.push(108);
    r.push(101);
    proof {
        assert(r@ =~= file_pat());
    }
    r
}

/// Decimal digits of a non-negative number, most significant first.
pub open spec fn dec_spec(n: int) -> Seq<u8>
    recommends
        n >= 0,
    decreases n,
{
    if n < 10 {
        seq![(n % 10 + 48) as u8]
    } else {
        dec_spec(n / 10).push((n % 10 + 48) as u8)
    }
}

/// Formats a number as decimal digit bytes.
#[verifier::loop_isolation(false)]
pub fn u32_to_dec(w: u32) -> (r: Vec<u8>)
    ensures
        r@ == dec_spec(w as int),
{
    let mut tmp: Vec<u8> = Vec::new();
    tmp.push((w % 10) as u8 + 48);
    let mut x = w / 10;
    proof {
        if w >= 10 {
            assert(dec_spec(w as int) == dec_spec(w as int / 10).push((w as int % 10 + 48) as u8));
            assert(dec_spec(x as int) + tmp@.reverse() =~= dec_spec(w as int));
        } else {
            assert(tmp@.reverse() =~= dec_spec(w as int));
        }
    }
    while x > 0
        invariant
            x > 0 ==> dec_spec(w as int) == dec_spec(x as int) + tmp@.reverse(),
            x == 0 ==> dec_spec(w as int) == tmp@.reverse(),
            tmp@.len() >= 1,
        decreases x,
    {
        let ghost t0 = tmp@;
        let d = (x % 10) as u8 + 48;
        tmp.push(d);
        let ghost x0 = x as int;
        x = x / 10;
        proof {
            assert(tmp@.reverse() =~= seq![d] + t0.reverse());
            if x > 0 {
                assert(x0 >= 10);
                assert(dec_spec(x0) == dec_spec(x0 / 10).push((x0 % 10 + 48) as u8));
                assert(dec_spec(x0 / 10).push(d) + t0.reverse() =~= dec_spec(x0 / 10) + (seq![d]
                    + t0.reverse()));
            } else {
                assert(x0 < 10);
                assert(dec_spec(x0) =~= seq![d]);
            }
        }
    }
    let mut r: Vec<u8> = Vec::new();
    let mut i: usize = tmp.len();
    while i > 0
        invariant
            i <= tmp@.len(),
            r@ == tmp@.reverse().take(tmp@.len() - i),
        decreases i,
    {
        i -= 1;
        r.push(tmp[i]);
        proof {
            let rev = tmp@.reverse();
            assert(rev[tmp@.len() - 1 - i] == tmp@[i as int]);
            assert(rev.take(tmp@.len() - i) =~= rev.take(tmp@.len() - i - 1).push(
                tmp@[i as int],
            ));
        }
    }
    proof {
        assert(tmp@.reverse().take(tmp@.len() as int) =~= tmp@.reverse());
    }
    r
}

/// One argument with all three placeholders substituted, in the order
/// text width, language, file.
pub open spec fn template_spec(arg: Seq<u8>, width: int, lang: Seq<u8>, file: Seq<u8>) -> Seq<
    u8,
> {
    replace_all_spec(
        replace_all_spec(replace_all_spec(arg, textwidth_pat(), dec_spec(width)), language_pat(), lang),
        file_pat(),
        file,
    )
}

/// Substitutes `$textwidth`, `$language` and `$file` in one argument.
pub fn template_arg(arg: &String, printwidth: u32, language: &String, file_var: &Vec<u8>) -> (r:
    Vec<u8>)
    ensures
        r@ == template_spec(str_bytes(arg@), printwidth as int, str_bytes(language@), file_var@),
{
    let bytes = arg.as_str().as_bytes_vec();
    let lang_bytes = language.as_str().as_bytes_vec();
    let width_dec = u32_to_dec(printwidth);
    let p1 = bytes_of_textwidth();
    let s1 = crate::escape::replace_all(&bytes, &p1, &width_dec);
    let p2 = bytes_of_language();
    let s2 = crate::escape::replace_all(&s1, &p2, &lang_bytes);
    let p3 = bytes_of_file();
    crate::escape::replace_all(&s2, &p3, file_var)
}

/// A fully templated formatter invocation, ready for a runner: the command,
/// its argument bytes (with `$file` still to be filled by a file-mode
/// runner), and the failure policy.
#[derive(Debug)]
pub struct Invocation {
    pub cmd: String,
    pub args: Vec<Vec<u8>>,
    pub use_stdin: bool,
    pub fail_on_stderr: bool,
}

/// The templated argument list of a formatter description.
pub open spec fn templated_args_spec(args: Seq<String>, width: int, lang: Seq<u8>, file: Seq<
    u8,
>) -> Seq<Seq<u8>> {
    args.map_values(|a: String| template_spec(str_bytes(a@), width, lang, file))
}

/// Builds the invocation of a formatter: substitutes the text width and
/// language placeholders into every argument (`$file` is left for a
/// file-mode runner) and resolves the defaults: standard input is used
/// unless disabled, and standard error is not fatal unless requested.
#[verifier::loop_isolation(false)]
pub fn build_invocation(spec: &FormatterSpec, printwidth: u32, language: &String) -> (r:
    Invocation)
    ensures
        r.cmd@ == spec.cmd@,
        r.args.deep_view() == templated_args_spec(
            spec.args@,
            printwidth as int,
            str_bytes(language@),
            file_pat(),
        ),
        r.use_stdin == match spec.stdin {
            Option::Some(b) => b,
            Option::None => true,
        },
        r.fail_on_stderr == match spec.fail_on_stderr {
            Option::Some(b) => b,
            Option::None => false,
        },
{
    let ghost goal = templated_args_spec(
        spec.args@,
        printwidth as int,
        str_bytes(language@),
        file_pat(),
    );
    let file_var = bytes_of_file();
    let mut args: Vec<Vec<u8>> = Vec::new();
    let mut k: usize = 0;
    proof {
        assert(args.deep_view() =~= goal.take(0));
    }
    while k < spec.args.len()
        invariant
            k <= spec.args@.len(),
            args.deep_view() == goal.take(k as int),
        decreases spec.args@.len() - k,
    {
        let a = template_arg(&spec.args[k], printwidth, language, &file_var);
        args.push(a);
        proof {
            assert(goal[k as int] == template_spec(
                str_bytes(spec.args@[k as int]@),
                printwidth as int,
                str_bytes(language@),
                file_pat(),
            ));
            assert(args.deep_view() =~= goal.take(k + 1 as int)) by {
                assert(forall|m: int|
                    0 <= m < args@.len() ==> args.deep_view()[m] == (#[trigger] args@[m])@);
                assert(goal.take(k + 1 as int) =~= goal.take(k as int).push(goal[k as int]));
            }
        }
        k += 1;
    }
    proof {
        assert(goal.take(goal.len() as int) =~= goal);
    }
    let use_stdin = match spec.stdin {
        Option::Some(b) => b,
        Option::None => true,
    };
    let fail_on_stderr = match spec.fail_on_stderr {
        Option::Some(b) => b,
        Option::None => false,
    };
    Invocation { cmd: spec.cmd.clone(), args, use_stdin, fail_on_stderr }
}

/// Judges a finished formatter run: a non-zero exit status is an error, and
/// output on standard error is an error when the invocation says so; the
/// captured output is the result otherwise.
pub fn evaluate_formatter_outcome(
    status_success: bool,
    stderr_empty: bool,
    fail_on_stderr: bool,
    stdout: Vec<u8>,
    cmd: &String,
) -> (r: Result<Vec<u8>, FormatError>)
    ensures
        (status_success && (stderr_empty || !fail_on_stderr)) ==> (r matches Ok(out) && out@
            == stdout@),
        !(status_success && (stderr_empty || !fail_on_stderr)) ==> (r matches Err(e)
            && e is FormatterInvocationError),
{
    if !status_success {
        Err(FormatError::FormatterInvocationError(cmd.clone()))
    } else if fail_on_stderr && !stderr_empty {
        Err(FormatError::FormatterInvocationError(cmd.clone()))
    } else {
        Ok(stdout)
    }
}

/// The print width handed to a sub-format: the parent width less the
/// region's indent, never below one column.
pub fn adjusted_print_width(printwidth: u32, indent: usize) -> (r: u32)
    ensures
        r as int == if printwidth as int - indent as int >= 1 {
            printwidth as int - indent as int
        } else {
            1int
        },
{
    let reduced = if indent < u32::MAX as usize {
        printwidth.saturating_sub(indent as u32)
    } else {
        0
    };
    if reduced == 0 {
        1
    } else {
        reduced
    }
}

} // verus!

