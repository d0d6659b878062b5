//! The command line handed to the external transcoder for one item, and how
//! its exit is read back as an outcome.
use vstd::prelude::*;
use crate::path::{get_output_filename, has_stem, output_path, PathError};
use crate::scale::Scale;

verus! {

pub open spec fn digit_chars() -> Seq<char> {
    seq!['0', '1', '2', '3', '4', '5', '6', '7', '8', '9']
}

/// Decimal numeral of `n`, without leading zeros.
pub open spec fn decimal_text(n: nat) -> Seq<char>
    decreases n,
{
    if n < 10 {
        seq![digit_chars()[n as int]]
    } else {
        decimal_text(n / 10).push(digit_chars()[(n % 10) as int])
    }
}

/// The resize filter: each dimension times the scale, truncated down to an even number.
pub open spec fn scale_filter(scale: Seq<char>) -> Seq<char> {
    "scale=trunc(iw*"@ + scale + "/2)*2:trunc(ih*"@ + scale + "/2)*2"@
}

/// The transcoder's command line: fixed codec and fastest preset, the
/// compression level as quality parameter, the even-dimension resize filter,
/// and overwriting of an existing output.
pub open spec fn command_spec(input: Seq<char>, output: Seq<char>, compression: nat, scale: Seq<char>) -> Seq<Seq<char>> {
    seq![
        "ffmpeg"@,
        "-i"@,
        input,
        "-vcodec"@,
        "libx264"@,
        "-preset"@,
        "ultrafast"@,
        "-crf"@,
        decimal_text(compression),
        "-vf"@,
        scale_filter(scale),
        output,
        "-y"@,
    ]
}

/// What became of one item.
#[derive(Debug, PartialEq, Eq)]
pub enum Outcome {
    /// The transcoder exited with status zero.
    Success,
    /// No output path could be derived from the input path.
    InvalidPath,
    /// The transcoder could not be started; the launch error's text.
    LaunchFailed(String),
    /// The transcoder exited with a nonzero status; what it wrote to its error stream.
    ToolFailed(String),
}

impl Outcome {
    pub open spec fn is_success(&self) -> bool {
        self is Success
    }

    pub fn succeeded(&self) -> (r: bool)
        ensures
            r == self.is_success(),
    {
        match self {
            Outcome::Success => true,
            _ => false,
        }
    }

    pub fn is_launch_failure(&self) -> (r: bool)
        ensures
            r == self is LaunchFailed,
    {
        match self {
            Outcome::LaunchFailed(_) => true,
            _ => false,
        }
    }
}

fn digit_str(d: u8) -> (r: &'static str)
    requires
        d < 10,
    ensures
        r@ == seq![digit_chars()[d as int]],
{
    let all = "0123456789";
    proof {
        reveal_strlit("0123456789");
    }
    let r = all.substring_char(d as usize, d as usize + 1);
    assert(r@ =~= seq![digit_chars()[d as int]]);
    r
}

/// Decimal numeral of a byte.
pub fn decimal_string(n: u8) -> (r: String)
    ensures
        r@ == decimal_text(n as nat),
{
    let mut out = String::new();
    if n >= 100 {
        out.append(digit_str(n / 100));
    }
    if n >= 10 {
        out.append(digit_str((n / 10) % 10));
    }
    out.append(digit_str(n % 10));
    proof {
        reveal_with_fuel(decimal_text, 3);
        if n >= 100 {
            assert(decimal_text(n as nat / 10 / 10) =~= seq![digit_chars()[(n / 100) as int]]);
        } else if n >= 10 {
            assert(decimal_text(n as nat / 10) =~= seq![digit_chars()[((n / 10) % 10) as int]]);
        }
    }
    assert(out@ =~= decimal_text(n as nat));
    out
}

fn owned(s: &str) -> (r: String)
    ensures
        r@ == s@,
{
    String::from_str(s)
}

/// The resize filter text for a scale.
pub fn scale_filter_text(scale: &Scale) -> (r: String)
    ensures
        r@ == scale_filter(scale@.0),
{
    let t = scale.text().as_str();
    let mut out = owned("scale=trunc(iw*");
    out.append(t);
    out.append("/2)*2:trunc(ih*");
    out.append(t);
    out.append("/2)*2");
    assert(out@ =~= scale_filter(scale@.0));
    out
}

/// The full command line that transcodes `input` into `output`.
pub fn transcode_args(input: &str, output: &str, compression: u8, scale: &Scale) -> (r: Vec<String>)
    ensures
        r.deep_view() == command_spec(input@, output@, compression as nat, scale@.0),
{
    let mut args: Vec<String> = Vec::new();
    args.push(owned("ffmpeg"));
    args.push(owned("-i"));
    args.push(owned(input));
    args.push(owned("-vcodec"));
    args.push(owned("libx264"));
    args.push(owned("-preset"));
    args.push(owned("ultrafast"));
    args.push(owned("-crf"));
    args.push(decimal_string(compression));
    args.push(owned("-vf"));
    args.push(scale_filter_text(scale));
    args.push(owned(output));
    args.push(owned("-y"));
    assert(args.deep_view() =~= command_spec(input@, output@, compression as nat, scale@.0));
    args
}

/// The command line for one input: its output path is derived from the
/// input and the format, and an input without a file stem is refused.
pub fn compress_command(input: &str, format: &str, compression: u8, scale: &Scale) -> (r: Result<
    Vec<String>,
    PathError,
>)
    ensures
        match r {
            Ok(args) => has_stem(input@) && args.deep_view() == command_spec(
                input@,
                output_path(input@, format@),
                compression as nat,
                scale@.0,
            ),
            Err(e) => !has_stem(input@) && e == PathError::InvalidPath,
        },
{
    let output = get_output_filename(input, format)?;
    Ok(transcode_args(input, output.as_str(), compression, scale))
}

/// Reads the transcoder's exit: status zero is success, and any other status
/// is a failure carrying the error stream, even an empty one.
pub fn interpret_exit(exit_success: bool, stderr: String) -> (r: Outcome)
    ensures
        exit_success ==> r == Outcome::Success,
        !exit_success ==> r == Outcome::ToolFailed(stderr),
{
    if exit_success {
        Outcome::Success
    } else {
        Outcome::ToolFailed(stderr)
    }
}

} // verus!
