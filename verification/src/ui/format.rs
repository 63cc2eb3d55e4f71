//! How times, sizes, rates and names are shown.
use vstd::prelude::*;

use crate::number::{digits, padded, push_decimal, push_padded};
use crate::text::{chars_of, string_of};
use crate::time::Span;

verus! {

/// A clock reading of a span: hours only if there are any.
pub open spec fn elapsed_text(secs: nat) -> Seq<char> {
    let h = secs / 3600;
    let m = secs % 3600 / 60;
    let s = secs % 60;
    if h > 0 {
        digits(h) + ":"@ + padded(m, 2) + ":"@ + padded(s, 2)
    } else {
        padded(m, 2) + ":"@ + padded(s, 2)
    }
}

pub fn format_elapsed(d: Span) -> (r: String)
    ensures
        r@ == elapsed_text(d.whole_secs()),
{
    let secs: u64 = d.as_secs();
    let h: u64 = secs / 3600;
    let m: u64 = (secs % 3600) / 60;
    let s: u64 = secs % 60;
    let mut out: String = String::new();
    if h > 0 {
        push_decimal(&mut out, h);
        out.append(":");
    }
    push_padded(&mut out, m, 2);
    out.append(":");
    push_padded(&mut out, s, 2);
    proof {
        assert(out@ =~= elapsed_text(d.whole_secs()));
    }
    out
}

/// `n / d`, rounded to the nearest whole number; halfway cases go to the
/// even neighbour.
pub open spec fn rounded(n: nat, d: nat) -> nat {
    let q = n / d;
    let r = n % d;
    if 2 * r < d {
        q
    } else if 2 * r > d {
        q + 1
    } else if q % 2 == 0 {
        q
    } else {
        q + 1
    }
}

/// The spacing of double-precision numbers around `n`.
pub open spec fn spacing(n: nat) -> nat
    decreases n,
{
    if n < 0x20_0000_0000_0000 {
        1
    } else {
        2 * spacing(n / 2)
    }
}

/// The double-precision number nearest to `n`.
pub open spec fn nearest_double(n: nat) -> nat {
    rounded(n, spacing(n)) * spacing(n)
}

/// A size in MB with two decimals, or below one MB in KB with one decimal.
pub open spec fn size_text(bytes: nat) -> Seq<char> {
    let b = nearest_double(bytes);
    if b >= 0x10_0000 {
        let hundredths = rounded(b * 100, 0x10_0000);
        digits(hundredths / 100) + "."@ + padded(hundredths % 100, 2) + "MB"@
    } else {
        let tenths = rounded(b * 10, 0x400);
        digits(tenths / 10) + "."@ + digits(tenths % 10) + "KB"@
    }
}

fn round_even(n: u128, d: u128) -> (r: u128)
    requires
        0 < d <= 0x1_0000_0000,
        n <= 0x1_0000_0000_0000_0000_0000,
    ensures
        r == rounded(n as nat, d as nat),
        r <= n + 1,
{
    let q: u128 = n / d;
    let rest: u128 = n % d;
    proof {
        assert(q <= n) by (nonlinear_arith)
            requires
                q == n / d,
                d > 0,
        ;
    }
    if 2 * rest < d {
        q
    } else if 2 * rest > d {
        q + 1
    } else if q % 2 == 0 {
        q
    } else {
        q + 1
    }
}

fn unit_of(n: u64) -> (r: u64)
    ensures
        r == spacing(n as nat),
        0 < r <= 0x1000,
        r <= n / 0x10_0000_0000_0000 || r == 1,
    decreases n,
{
    if n < 0x20_0000_0000_0000 {
        1
    } else {
        2 * unit_of(n / 2)
    }
}

/// Sizes are shown in MB or KB; single bytes would be noise.
pub fn format_size(bytes: u64) -> (r: String)
    ensures
        r@ == size_text(bytes as nat),
{
    let unit: u128 = unit_of(bytes) as u128;
    let q: u128 = round_even(bytes as u128, unit);
    proof {
        let n = bytes as nat;
        let u = unit as nat;
        assert(rounded(n, u) * u <= n + u) by (nonlinear_arith)
            requires
                rounded(n, u) <= n / u + 1,
                u > 0,
        ;
    }
    let b: u128 = q * unit;
    let mut out: String = String::new();
    if b >= 0x10_0000 {
        let hundredths: u128 = round_even(b * 100, 0x10_0000);
        proof {
            let n = (b * 100) as nat;
            assert(rounded(n, 0x10_0000) <= n / 0x10_0000 + 1);
        }
        push_decimal(&mut out, (hundredths / 100) as u64);
        out.append(".");
        push_padded(&mut out, (hundredths % 100) as u64, 2);
        out.append("MB");
    } else {
        let tenths: u128 = round_even(b * 10, 0x400);
        push_decimal(&mut out, (tenths / 10) as u64);
        out.append(".");
        push_decimal(&mut out, (tenths % 10) as u64);
        out.append("KB");
    }
    proof {
        assert(out@ =~= size_text(bytes as nat));
    }
    out
}

/// A rate: the size for a second, or dashes if there is none yet.
pub open spec fn rate_text(bytes_per_sec: Option<u64>) -> Seq<char> {
    match bytes_per_sec {
        Some(bps) => size_text(bps as nat) + "/s"@,
        None => "--"@,
    }
}

pub fn format_rate(bytes_per_sec: Option<u64>) -> (r: String)
    ensures
        r@ == rate_text(bytes_per_sec),
{
    match bytes_per_sec {
        Some(bps) => {
            let mut out: String = format_size(bps);
            out.append("/s");
            out
        },
        None => "--".to_owned(),
    }
}

/// Bytes per second over the whole time, which counts as one second at the
/// least. `None` if nothing was copied.
pub fn lifetime_rate(bytes: u64, elapsed: Span) -> (r: Option<u64>)
    ensures
        r is None <==> bytes == 0,
        r matches Some(rate) ==> rate as nat == bytes as nat / (if elapsed.whole_secs() < 1 {
            1
        } else {
            elapsed.whole_secs()
        }),
{
    if bytes == 0 {
        return None;
    }
    let secs: u64 = elapsed.as_secs();
    let secs: u64 = if secs < 1 {
        1
    } else {
        secs
    };
    Some(bytes / secs)
}

/// The frames of the spinner.
pub open spec fn spinner_frames() -> Seq<char> {
    seq!['⠋', '⠙', '⠹', '⠸', '⠼', '⠴', '⠦', '⠧', '⠇', '⠏']
}

/// The frame of the spinner after so many milliseconds: each lasts a tenth of
/// a second.
pub open spec fn frame_after(millis: nat) -> char {
    spinner_frames()[((millis / 100) % 10) as int]
}

/// The spinner changes every tenth of a second and comes round in a second.
pub proof fn spinner_turns(millis: nat)
    ensures
        frame_after(millis + 100) != frame_after(millis),
        frame_after(millis + 1000) == frame_after(millis),
{
    assert((millis + 100) / 100 == millis / 100 + 1);
    assert((millis + 1000) / 100 == millis / 100 + 10);
}

/// The frame of the spinner after a time.
pub fn spinner_frame(elapsed: Span) -> (r: char)
    ensures
        r == frame_after(elapsed.whole_millis()),
{
    let frames: [char; 10] = ['⠋', '⠙', '⠹', '⠸', '⠼', '⠴', '⠦', '⠧', '⠇', '⠏'];
    let idx: usize = ((elapsed.as_millis() / 100) % 10) as usize;
    proof {
        assert(frames@ =~= spinner_frames());
    }
    frames[idx]
}

/// `s` cut to `max` characters, the last of them an ellipsis if it was cut.
pub open spec fn truncated(s: Seq<char>, max: nat) -> Seq<char> {
    if s.len() <= max {
        s
    } else if max <= 1 {
        "…"@
    } else {
        s.take(max - 1) + "…"@
    }
}

/// Cuts a name to `max` characters. The head stays: the tail of a file name
/// carries no extra signal once it is cut.
pub fn truncate(s: &str, max: usize) -> (r: String)
    ensures
        r@ == truncated(s@, max as nat),
{
    let cs = chars_of(s);
    if cs.len() <= max {
        return s.to_owned();
    }
    if max <= 1 {
        return "…".to_owned();
    }
    let mut out: String = string_of(&cs, 0, max - 1);
    out.append("…");
    proof {
        assert(out@ =~= s@.take(max - 1) + "…"@);
    }
    out
}

/// So many hours, minutes and seconds are shown as such, hours only if there
/// are any.
pub proof fn clock_shows_hours_minutes_seconds(h: nat, m: nat, s: nat)
    requires
        m < 60,
        s < 60,
    ensures
        h > 0 ==> elapsed_text(3600 * h + 60 * m + s) == digits(h) + ":"@ + padded(m, 2) + ":"@
            + padded(s, 2),
        elapsed_text(60 * m + s) == padded(m, 2) + ":"@ + padded(s, 2),
{
    let secs = 3600 * h + 60 * m + s;
    assert(secs / 3600 == h && secs % 3600 == 60 * m + s) by (nonlinear_arith)
        requires
            secs == 3600 * h + 60 * m + s,
            m < 60,
            s < 60,
    ;
    assert((60 * m + s) / 60 == m && (60 * m + s) % 60 == s);
    assert(secs % 60 == s) by (nonlinear_arith)
        requires
            secs == 3600 * h + 60 * m + s,
            s < 60,
    ;
}

/// A quotient is rounded to a whole number that is off by a half at most; if
/// it is off by exactly a half, the number is even.
pub proof fn rounding_is_to_the_nearest(n: nat, d: nat)
    requires
        d > 0,
    ensures
        2 * n <= 2 * (rounded(n, d) * d) + d,
        2 * (rounded(n, d) * d) <= 2 * n + d,
        2 * n == 2 * (rounded(n, d) * d) + d || 2 * (rounded(n, d) * d) == 2 * n + d ==> rounded(
            n,
            d,
        ) % 2 == 0,
{
    let q = n / d;
    let r = n % d;
    assert(n == q * d + r && r < d) by (nonlinear_arith)
        requires
            d > 0,
            q == n / d,
            r == n % d,
    ;
    assert((q + 1) * d == q * d + d) by (nonlinear_arith);
}

/// A number of at most 53 bits is a double-precision number itself. Beyond
/// that the spacing doubles whenever the number does.
pub proof fn doubles_have_fifty_three_bits(n: nat)
    ensures
        n < 0x20_0000_0000_0000 ==> spacing(n) == 1 && nearest_double(n) == n,
        n >= 0x20_0000_0000_0000 ==> spacing(n) * 0x10_0000_0000_0000 <= n && n < spacing(n)
            * 0x20_0000_0000_0000,
        spacing(2 * n) == if 2 * n < 0x20_0000_0000_0000 {
            1
        } else {
            2 * spacing(n)
        },
    decreases n,
{
    assert(2 * n / 2 == n);
    if n >= 0x20_0000_0000_0000 {
        doubles_have_fifty_three_bits(n / 2);
    }
}

/// A size of a megabyte or more is shown in megabytes to the nearest
/// hundredth. The sizes are those that a double-precision number holds.
pub proof fn large_sizes_are_shown_in_megabytes(bytes: nat, whole: nat, hundredths: nat)
    requires
        0x10_0000 <= bytes < 0x20_0000_0000_0000,
        hundredths < 100,
        2 * 100 * bytes < (2 * (100 * whole + hundredths) + 1) * 0x10_0000,
        (2 * (100 * whole + hundredths)) * 0x10_0000 < 2 * 100 * bytes + 0x10_0000,
    ensures
        size_text(bytes) == digits(whole) + "."@ + padded(hundredths, 2) + "MB"@,
{
    doubles_have_fifty_three_bits(bytes);
    let n = 100 * whole + hundredths;
    rounding_is_to_the_nearest(bytes * 100, 0x10_0000);
    let q = rounded(bytes * 100, 0x10_0000);
    assert(2 * (bytes * 100) <= 2 * (q * 0x10_0000) + 0x10_0000);
    assert(2 * (q * 0x10_0000) <= 2 * (bytes * 100) + 0x10_0000);
    assert(q == n) by (nonlinear_arith)
        requires
            2 * 100 * bytes < (2 * n + 1) * 0x10_0000,
            (2 * n) * 0x10_0000 < 2 * 100 * bytes + 0x10_0000,
            2 * (bytes * 100) <= 2 * (q * 0x10_0000) + 0x10_0000,
            2 * (q * 0x10_0000) <= 2 * (bytes * 100) + 0x10_0000,
    ;
    assert(n / 100 == whole && n % 100 == hundredths);
}

/// A size below a megabyte is shown in kilobytes to the nearest tenth.
pub proof fn small_sizes_are_shown_in_kilobytes(bytes: nat, whole: nat, tenths: nat)
    requires
        bytes < 0x10_0000,
        tenths < 10,
        2 * 10 * bytes < (2 * (10 * whole + tenths) + 1) * 0x400,
        (2 * (10 * whole + tenths)) * 0x400 < 2 * 10 * bytes + 0x400,
    ensures
        size_text(bytes) == digits(whole) + "."@ + digits(tenths) + "KB"@,
{
    doubles_have_fifty_three_bits(bytes);
    let n = 10 * whole + tenths;
    rounding_is_to_the_nearest(bytes * 10, 0x400);
    let q = rounded(bytes * 10, 0x400);
    assert(2 * (bytes * 10) <= 2 * (q * 0x400) + 0x400);
    assert(2 * (q * 0x400) <= 2 * (bytes * 10) + 0x400);
    assert(q == n) by (nonlinear_arith)
        requires
            2 * 10 * bytes < (2 * n + 1) * 0x400,
            (2 * n) * 0x400 < 2 * 10 * bytes + 0x400,
            2 * (bytes * 10) <= 2 * (q * 0x400) + 0x400,
            2 * (q * 0x400) <= 2 * (bytes * 10) + 0x400,
    ;
    assert(n / 10 == whole && n % 10 == tenths);
}

/// A rate is shown as the size of what comes in a second.
pub proof fn rate_is_shown_for_a_second(bytes_per_sec: u64)
    ensures
        rate_text(Some(bytes_per_sec)) == size_text(bytes_per_sec as nat) + "/s"@,
        rate_text(None) == "--"@,
{
}

/// The spinner goes through its frames in their order, each for a tenth of a
/// second.
pub proof fn spinner_goes_through_its_frames(round: nat, frame: nat, rest: nat)
    requires
        frame < 10,
        rest < 100,
    ensures
        "⠋⠙⠹⠸⠼⠴⠦⠧⠇⠏"@.len() == 10,
        frame_after(1000 * round + 100 * frame + rest) == "⠋⠙⠹⠸⠼⠴⠦⠧⠇⠏"@[frame as int],
{
    reveal_strlit("⠋⠙⠹⠸⠼⠴⠦⠧⠇⠏");
    let millis = 1000 * round + 100 * frame + rest;
    assert(millis / 100 == 10 * round + frame);
    assert((10 * round + frame) % 10 == frame);
}

/// A name that is cut keeps its beginning, takes up exactly the room there
/// is, and ends in an ellipsis. One that has room is not cut.
pub proof fn cut_names_keep_their_beginning(s: Seq<char>, max: nat)
    ensures
        s.len() <= max ==> truncated(s, max) == s,
        s.len() > max > 0 ==> {
            &&& truncated(s, max).len() == max
            &&& truncated(s, max).drop_last() == s.take(max - 1)
            &&& truncated(s, max).last() == '…'
        },
        s.len() > 0 ==> truncated(s, 0) == seq!['…'],
{
    reveal_strlit("…");
    if s.len() > max && max > 1 {
        assert(truncated(s, max).drop_last() =~= s.take(max - 1));
    } else if s.len() > max && max == 1 {
        assert(truncated(s, max).drop_last() =~= s.take(0));
    }
    assert("…"@ =~= seq!['…']);
}

} // verus!
