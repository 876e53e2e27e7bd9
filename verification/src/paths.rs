//! Names of the files that a run works on, below a root directory.

use vstd::prelude::*;
use vstd::string::*;

verus! {

/// The decimal digit for `d`.
pub open spec fn digit_char(d: int) -> char {
    if d == 0 {
        '0'
    } else if d == 1 {
        '1'
    } else if d == 2 {
        '2'
    } else if d == 3 {
        '3'
    } else if d == 4 {
        '4'
    } else if d == 5 {
        '5'
    } else if d == 6 {
        '6'
    } else if d == 7 {
        '7'
    } else if d == 8 {
        '8'
    } else {
        '9'
    }
}

/// The decimal notation of `n`, without leading zeros.
pub open spec fn decimal(n: nat) -> Seq<char>
    decreases n,
{
    if n < 10 {
        seq![digit_char(n as int)]
    } else {
        decimal(n / 10).push(digit_char((n % 10) as int))
    }
}

/// Path of the watermarked recording below `root`.
pub open spec fn watermarked_path(root: Seq<char>) -> Seq<char> {
    root + "/output_data/OSR_us_000_0057_8k_watermarked.wav"@
}

/// Path, below `root`, of the recording made in one experiment.
pub open spec fn experiment_path(
    root: Seq<char>,
    sample_rate: nat,
    frame_ms: nat,
    strength_percent: nat,
) -> Seq<char> {
    root + "/output_data/"@ + decimal(sample_rate) + "_"@ + decimal(frame_ms) + "_"@ + decimal(
        strength_percent,
    ) + ".wav"@
}

fn digit_str(d: u32) -> (s: &'static str)
    requires
        d < 10,
    ensures
        s@ == seq![digit_char(d as int)],
{
    proof {
        reveal_strlit("0");
        reveal_strlit("1");
        reveal_strlit("2");
        reveal_strlit("3");
        reveal_strlit("4");
        reveal_strlit("5");
        reveal_strlit("6");
        reveal_strlit("7");
        reveal_strlit("8");
        reveal_strlit("9");
    }
    let s = if d == 0 {
        "0"
    } else if d == 1 {
        "1"
    } else if d == 2 {
        "2"
    } else if d == 3 {
        "3"
    } else if d == 4 {
        "4"
    } else if d == 5 {
        "5"
    } else if d == 6 {
        "6"
    } else if d == 7 {
        "7"
    } else if d == 8 {
        "8"
    } else {
        "9"
    };
    assert(s@ =~= seq![digit_char(d as int)]);
    s
}

/// Appends the decimal notation of `n` to `text`.
fn push_decimal(text: &mut String, n: u32)
    ensures
        final(text)@ == old(text)@ + decimal(n as nat),
    decreases n,
{
    if n >= 10 {
        push_decimal(text, n / 10);
    }
    text.append(digit_str(n % 10));
    assert(text@ =~= old(text)@ + decimal(n as nat));
}

/// Path of the watermarked recording that the decoder reads by default,
/// below the directory `root`.
pub fn default_watermarked_path(root: &str) -> (path: String)
    ensures
        path@ == watermarked_path(root@),
{
    let mut path = String::from_str(root);
    path.append("/output_data/OSR_us_000_0057_8k_watermarked.wav");
    path
}

/// Path, below the directory `root`, of the recording that an experiment
/// at the given sample rate, frame duration and strength writes.
pub fn experiment_output_path(root: &str, sample_rate: u32, frame_ms: u32, strength_percent: u32) -> (path:
    String)
    ensures
        path@ == experiment_path(
            root@,
            sample_rate as nat,
            frame_ms as nat,
            strength_percent as nat,
        ),
{
    let mut path = String::from_str(root);
    path.append("/output_data/");
    push_decimal(&mut path, sample_rate);
    path.append("_");
    push_decimal(&mut path, frame_ms);
    path.append("_");
    push_decimal(&mut path, strength_percent);
    path.append(".wav");
    path
}

} // verus!
