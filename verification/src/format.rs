//! How amounts, speeds, times and phases are written for the user.

use crate::double::{
    at_least, is_near, is_normal, lemma_at_least_keeps_order, lemma_near_more,
    lemma_nearest_cancels, lemma_nearest_is_exact, lemma_nearest_is_near, lemma_nearest_is_normal,
    lemma_nearest_keeps_order, lemma_nearest_of_scaled, lemma_power, lemma_quotient_is_near,
    lemma_quotient_keeps_order, lemma_real_product, lemma_rounded_multiple_is_near, lemma_two_to_64,
    lemma_two_to_positive, nearest, no_greater, power, quotient, rounded_multiple, two_to, value,
    Double, Number, LEAST,
};
use crate::models::{InstallPhase, InstallProgress, ProgressState};
use crate::text::{decimal, digit, push_decimal};
use vstd::prelude::*;

verus! {

broadcast use vstd::string::group_string_axioms;

/// The name of a unit: bytes, and each the thousandfold of the one before.
pub open spec fn unit_name(unit: nat) -> Seq<char> {
    if unit == 0 {
        "B"@
    } else if unit == 1 {
        "KB"@
    } else if unit == 2 {
        "MB"@
    } else if unit == 3 {
        "GB"@
    } else {
        "TB"@
    }
}

/// A value in a unit, expressed in the first unit from there on in which it is below a
/// thousand, or in the last unit.
pub open spec fn in_fitting_unit(value: Number, unit: nat) -> (Number, nat)
    decreases 4 - unit,
{
    if unit < 4 && at_least(value, 1000, 1) {
        in_fitting_unit(quotient(value, Number { mantissa: 1000, exponent: 0 }), unit + 1)
    } else {
        (value, unit)
    }
}

/// An amount of bytes, and the unit in which it is expressed.
pub open spec fn fitting(bytes: u64) -> (Number, nat) {
    in_fitting_unit(nearest(bytes as nat, 1), 0)
}

/// A number with one decimal.
pub open spec fn number_text(value: Number) -> Seq<char> {
    let tenths = rounded_multiple(value, 10);
    decimal(tenths / 10) + seq!['.', digit(tenths % 10)]
}

/// An amount of bytes: whole below a thousand, in a greater unit with one decimal.
pub open spec fn bytes_text(bytes: u64) -> Seq<char> {
    if bytes == 0 {
        "0 B"@
    } else if bytes < 1000 {
        decimal(bytes as nat) + " B"@
    } else {
        let (value, unit) = fitting(bytes);
        number_text(value) + " "@ + unit_name(unit)
    }
}

/// A speed; a dash where nothing moves.
pub open spec fn speed_text(bytes_per_second: u64) -> Seq<char> {
    if bytes_per_second == 0 {
        "—"@
    } else {
        bytes_text(bytes_per_second) + "/s"@
    }
}

/// A number of seconds, in minutes, or in hours and minutes.
pub open spec fn seconds_text(seconds: nat) -> Seq<char> {
    if seconds < 60 {
        "< 1 min"@
    } else if seconds < 3600 {
        decimal(seconds / 60) + " min"@
    } else {
        decimal(seconds / 3600) + "h "@ + decimal((seconds % 3600) / 60) + "m"@
    }
}

/// The time that the missing bytes will take; a dash where none is missing or nothing moves.
pub open spec fn eta_text(progress: ProgressState) -> Seq<char> {
    if progress.bytes_per_second == 0 || progress.bytes_total <= progress.bytes_done {
        "—"@
    } else {
        seconds_text(
            ((progress.bytes_total - progress.bytes_done) / progress.bytes_per_second as int) as nat,
        )
    }
}

/// The heading for a phase.
pub open spec fn phase_text(phase: InstallPhase) -> Seq<char> {
    match phase {
        InstallPhase::Preparing => "PREPARING"@,
        InstallPhase::Downloading => "DOWNLOADING"@,
        InstallPhase::Verifying => "VERIFIED"@,
        InstallPhase::Prerequisites => "PREREQUISITES"@,
        InstallPhase::Complete => "COMPLETE"@,
        InstallPhase::Cancelled => "PAUSED"@,
        InstallPhase::Failed => "NEEDS ATTENTION"@,
        InstallPhase::Idle => "READY"@,
    }
}

/// How many bytes a unit stands for.
pub open spec fn unit_size(unit: nat) -> nat {
    if unit == 0 {
        1
    } else if unit == 1 {
        1_000
    } else if unit == 2 {
        1_000_000
    } else if unit == 3 {
        1_000_000_000
    } else {
        1_000_000_000_000
    }
}

/// A value divided by a thousand as often.
spec fn divided(value: Number, times: nat) -> Number
    decreases times,
{
    if times == 0 {
        value
    } else {
        quotient(divided(value, (times - 1) as nat), Number { mantissa: 1000, exponent: 0 })
    }
}

proof fn lemma_divided_keeps_order(a: Number, b: Number, times: nat)
    requires
        no_greater(a, b),
        is_normal(a),
        is_normal(b),
        a.mantissa > 0,
        b.mantissa > 0,
    ensures
        no_greater(divided(a, times), divided(b, times)),
        is_normal(divided(a, times)),
        is_normal(divided(b, times)),
        divided(a, times).mantissa > 0,
        divided(b, times).mantissa > 0,
    decreases times,
{
    if times > 0 {
        let by = Number { mantissa: 1000, exponent: 0 };
        let c = divided(a, (times - 1) as nat);
        let d = divided(b, (times - 1) as nat);
        lemma_divided_keeps_order(a, b, (times - 1) as nat);
        lemma_quotient_keeps_order(c, d, by);
        lemma_nearest_is_normal(c.mantissa, 1000);
        lemma_nearest_is_normal(d.mantissa, 1000);
    }
}

/// A thousandth of a thousandfold is what it was, as long as 53 bits hold it.
proof fn lemma_thousandth_of_thousandfold(n: nat)
    requires
        0 < n,
        1000 * n < 2 * LEAST,
    ensures
        quotient(nearest(1000 * n, 1), Number { mantissa: 1000, exponent: 0 }) == nearest(n, 1),
{
    let k = lemma_nearest_is_exact(1000 * n);
    let t = two_to(k);
    lemma_two_to_positive(k);
    assert((1000 * n) * t == 1000 * (n * t) && n * t > 0) by (nonlinear_arith)
        requires
            n > 0,
            t > 0,
    ;
    lemma_nearest_cancels(n * t, 1, 1000);
    assert(1000 * 1 == 1000nat);
    lemma_nearest_of_scaled(n, 1, k);
}

/// A thousand is at least a thousand.
proof fn lemma_thousand()
    ensures
        at_least(nearest(1000, 1), 1000, 1),
{
    let k = lemma_nearest_is_exact(1000);
    lemma_two_to_positive(k);
    if k == 0 {
        assert(two_to(0) == 1);
    }
}

/// The power of two that values just below a thousand are compared by.
proof fn lemma_two_to_43()
    ensures
        two_to(43) == 0x800_0000_0000,
{
    lemma_two_to_64();
    assert(two_to(33) == 2 * two_to(32));
    reveal_with_fuel(two_to, 12);
}

/// The greatest amount of plain bytes stays below the next unit.
proof fn lemma_just_below_kilobytes()
    ensures
        !at_least(nearest(999, 1), 1000, 1),
{
    let k = lemma_nearest_is_exact(999);
    let t = two_to(k);
    lemma_two_to_positive(k);
    if k == 0 {
        assert(two_to(0) == 1);
    }
    assert(999 * t < 1000 * t) by (nonlinear_arith)
        requires
            t > 0,
    ;
}

/// The greatest amount of kilobytes stays below the next unit, however it is rounded.
#[verifier::spinoff_prover]
proof fn lemma_just_below_megabytes()
    ensures
        !at_least(divided(nearest(999_999, 1), 1), 1000, 1),
{
    assert(nearest(999_999, 1) == Number { mantissa: 8589926002065408, exponent: -33 }) by {
        reveal_with_fuel(nearest, 35);
    }
    assert(nearest(8589926002065408, 1000) == Number {
        mantissa: 8796084226114978,
        exponent: -10,
    }) by {
        reveal_with_fuel(nearest, 12);
    }
    reveal_with_fuel(divided, 2);
    lemma_two_to_43();
}

/// The greatest amount of megabytes stays below the next unit, however it is rounded.
#[verifier::spinoff_prover]
proof fn lemma_just_below_gigabytes()
    ensures
        !at_least(divided(nearest(999_999_999, 1), 2), 1000, 1),
{
    assert(nearest(999_999_999, 1) == Number { mantissa: 8388607991611392, exponent: -23 }) by {
        reveal_with_fuel(nearest, 25);
    }
    assert(nearest(8388607991611392, 1000) == Number {
        mantissa: 8589934583410065,
        exponent: -10,
    }) by {
        reveal_with_fuel(nearest, 12);
    }
    assert(nearest(8589934583410065, 1000) == Number {
        mantissa: 8796093013411907,
        exponent: -10,
    }) by {
        reveal_with_fuel(nearest, 12);
    }
    reveal_with_fuel(divided, 3);
    lemma_two_to_43();
}

/// The greatest amount of gigabytes stays below the next unit, however it is rounded.
#[verifier::spinoff_prover]
proof fn lemma_just_below_terabytes()
    ensures
        !at_least(divided(nearest(999_999_999_999, 1), 3), 1000, 1),
{
    assert(nearest(999_999_999_999, 1) == Number { mantissa: 8191999999991808, exponent: -13 }) by {
        reveal_with_fuel(nearest, 15);
    }
    assert(nearest(8191999999991808, 1000) == Number {
        mantissa: 8388607999991611,
        exponent: -10,
    }) by {
        reveal_with_fuel(nearest, 12);
    }
    assert(nearest(8388607999991611, 1000) == Number {
        mantissa: 8589934591991410,
        exponent: -10,
    }) by {
        reveal_with_fuel(nearest, 12);
    }
    assert(nearest(8589934591991410, 1000) == Number {
        mantissa: 8796093022199204,
        exponent: -10,
    }) by {
        reveal_with_fuel(nearest, 12);
    }
    reveal_with_fuel(divided, 4);
    lemma_two_to_43();
}

/// The greatest amount below each unit stays below it, however it is rounded.
proof fn lemma_just_below_a_unit(times: nat)
    requires
        times < 4,
    ensures
        !at_least(divided(nearest((unit_size(times + 1) - 1) as nat, 1), times), 1000, 1),
{
    if times == 0 {
        lemma_just_below_kilobytes();
    } else if times == 1 {
        lemma_just_below_megabytes();
    } else if times == 2 {
        lemma_just_below_gigabytes();
    } else {
        lemma_just_below_terabytes();
    }
}

/// The least amount of each unit reaches it.
proof fn lemma_at_a_unit(times: nat)
    requires
        times < 4,
    ensures
        divided(nearest(unit_size(times + 1), 1), times) == nearest(1000, 1),
{
    reveal_with_fuel(divided, 4);
    if times >= 1 {
        lemma_thousandth_of_thousandfold(1000);
    }
    if times >= 2 {
        lemma_thousandth_of_thousandfold(1_000_000);
    }
    if times >= 3 {
        lemma_thousandth_of_thousandfold(1_000_000_000);
    }
}

/// An amount is left for the next unit exactly if there are as many bytes as that unit stands for.
proof fn lemma_unit_is_left(bytes: u64, times: nat)
    requires
        bytes > 0,
        times < 4,
    ensures
        at_least(divided(nearest(bytes as nat, 1), times), 1000, 1) == (bytes >= unit_size(
            times + 1,
        )),
{
    let size = unit_size(times + 1);
    let here = nearest(bytes as nat, 1);
    lemma_nearest_is_normal(bytes as nat, 1);
    if bytes >= size {
        lemma_nearest_is_normal(size, 1);
        lemma_nearest_keeps_order(size, bytes as nat, 1);
        lemma_divided_keeps_order(nearest(size, 1), here, times);
        lemma_at_a_unit(times);
        lemma_thousand();
        lemma_at_least_keeps_order(nearest(1000, 1), divided(here, times), 1000);
    } else {
        let below = nearest((size - 1) as nat, 1);
        lemma_nearest_is_normal((size - 1) as nat, 1);
        lemma_nearest_keeps_order(bytes as nat, (size - 1) as nat, 1);
        lemma_divided_keeps_order(here, below, times);
        lemma_just_below_a_unit(times);
        if at_least(divided(here, times), 1000, 1) {
            lemma_at_least_keeps_order(divided(here, times), divided(below, times), 1000);
        }
    }
}

/// The unit of an amount is the greatest of which there is at least one: the scale is decimal, and
/// no unit is skipped.
pub proof fn law_amount_is_in_fitting_unit(bytes: u64)
    requires
        bytes > 0,
    ensures
        ({
            let unit = fitting(bytes).1;
            &&& unit <= 4
            &&& unit_size(unit) <= bytes
            &&& unit < 4 ==> bytes < unit_size(unit + 1)
        }),
{
    lemma_unit_is_left(bytes, 0);
    lemma_unit_is_left(bytes, 1);
    lemma_unit_is_left(bytes, 2);
    lemma_unit_is_left(bytes, 3);
    reveal_with_fuel(in_fitting_unit, 5);
    reveal_with_fuel(divided, 5);
}

proof fn lemma_next_unit(value: Number, unit: nat)
    requires
        in_fitting_unit(value, unit).1 < 4,
    ensures
        in_fitting_unit(value, unit + 1) == (
            in_fitting_unit(value, unit).0,
            in_fitting_unit(value, unit).1 + 1,
        ),
        unit <= 4 ==> in_fitting_unit(value, unit).1 >= unit,
    decreases 4 - unit,
{
    if unit < 4 && at_least(value, 1000, 1) {
        lemma_next_unit(quotient(value, Number { mantissa: 1000, exponent: 0 }), unit + 1);
    }
}

/// A thousandfold amount is the same number in the next unit.
pub proof fn law_thousandfold_is_in_the_next_unit(bytes: u64)
    requires
        1_000 <= bytes < 1_000_000_000_000,
    ensures
        ({
            let more = (1000 * bytes) as u64;
            let (value, unit) = fitting(bytes);
            &&& 1 <= unit <= 3
            &&& fitting(more) == (value, unit + 1)
            &&& bytes_text(bytes) == number_text(value) + " "@ + unit_name(unit)
            &&& bytes_text(more) == number_text(value) + " "@ + unit_name(unit + 1)
        }),
{
    let more = (1000 * bytes) as u64;
    let value = nearest(bytes as nat, 1);
    law_amount_is_in_fitting_unit(bytes);
    lemma_thousandth_of_thousandfold(bytes as nat);
    lemma_unit_is_left(more, 0);
    lemma_next_unit(value, 0);
}

/// An amount of bytes, such as `54.3 GB`.
pub fn format_bytes(bytes: u64) -> (text: String)
    ensures
        text@ == bytes_text(bytes),
{
    if bytes == 0 {
        return "0 B".to_owned();
    }
    let mut text = String::new();
    if bytes < 1000 {
        push_decimal(&mut text, bytes as u128);
        text.append(" B");
        assert(text@ =~= bytes_text(bytes));
        return text;
    }
    let mut value = Double::from_integer(bytes);
    let mut unit: usize = 0;
    while unit < 4 && value.at_least(1000, 1)
        invariant
            unit <= 4,
            value.valid(),
            -127 * (unit + 1) <= value.exponent <= 12,
            in_fitting_unit(value@, unit as nat) == in_fitting_unit(nearest(bytes as nat, 1), 0),
        decreases 4 - unit,
    {
        value = value.divided_by_integer(1000);
        unit = unit + 1;
    }
    let tenths: u128 = value.tenths();
    let whole: u128 = tenths / 10;
    let last: u8 = (tenths % 10) as u8;
    push_decimal(&mut text, whole);
    text.push('.');
    text.push((48 + last) as char);
    text.append(" ");
    if unit == 0 {
        text.append("B");
    } else if unit == 1 {
        text.append("KB");
    } else if unit == 2 {
        text.append("MB");
    } else if unit == 3 {
        text.append("GB");
    } else {
        text.append("TB");
    }
    assert(text@ =~= bytes_text(bytes));
    text
}

/// A speed, such as `870.4 KB/s`; a dash where nothing moves.
pub fn format_speed(bytes_per_second: u64) -> (text: String)
    ensures
        text@ == speed_text(bytes_per_second),
{
    if bytes_per_second == 0 {
        "—".to_owned()
    } else {
        let mut text = format_bytes(bytes_per_second);
        text.append("/s");
        text
    }
}

/// The time that the missing bytes will take at the current speed.
pub fn format_eta(progress: &InstallProgress) -> (text: String)
    ensures
        text@ == eta_text(progress@),
{
    if progress.bytes_per_second == 0 || progress.bytes_total <= progress.bytes_done {
        return "—".to_owned();
    }
    let seconds: u64 = (progress.bytes_total - progress.bytes_done) / progress.bytes_per_second;
    if seconds < 60 {
        return "< 1 min".to_owned();
    }
    let mut text = String::new();
    if seconds < 3600 {
        push_decimal(&mut text, (seconds / 60) as u128);
        text.append(" min");
    } else {
        push_decimal(&mut text, (seconds / 3600) as u128);
        text.append("h ");
        push_decimal(&mut text, ((seconds % 3600) / 60) as u128);
        text.append("m");
    }
    assert(text@ =~= seconds_text(seconds as nat));
    text
}

/// The heading for a phase.
pub fn phase_name(phase: &InstallPhase) -> (name: &'static str)
    ensures
        name@ == phase_text(*phase),
{
    match phase {
        InstallPhase::Preparing => "PREPARING",
        InstallPhase::Downloading => "DOWNLOADING",
        InstallPhase::Verifying => "VERIFIED",
        InstallPhase::Prerequisites => "PREREQUISITES",
        InstallPhase::Complete => "COMPLETE",
        InstallPhase::Cancelled => "PAUSED",
        InstallPhase::Failed => "NEEDS ATTENTION",
        InstallPhase::Idle => "READY",
    }
}

/// The time that is left is the whole seconds that the missing bytes take at the speed. It is shown
/// in minutes, of which those that are shown are over and one more is not, and from an hour on in
/// hours and the minutes beyond them, of which there are less than sixty.
pub proof fn law_time_that_is_left(
    progress: ProgressState,
    seconds: nat,
    hours: nat,
    minutes: nat,
)
    requires
        progress.bytes_done < progress.bytes_total,
        seconds * progress.bytes_per_second <= progress.bytes_total - progress.bytes_done,
        progress.bytes_total - progress.bytes_done < (seconds + 1) * progress.bytes_per_second,
        minutes < 60,
        3600 * hours + 60 * minutes <= seconds < 3600 * hours + 60 * minutes + 60,
    ensures
        hours == 0 && minutes == 0 ==> eta_text(progress) == "< 1 min"@,
        hours == 0 && minutes > 0 ==> eta_text(progress) == decimal(minutes) + " min"@,
        hours > 0 ==> eta_text(progress) == decimal(hours) + "h "@ + decimal(minutes) + "m"@,
{
    let missing = progress.bytes_total - progress.bytes_done;
    let speed = progress.bytes_per_second as int;
    assert(speed > 0) by (nonlinear_arith)
        requires
            missing < (seconds + 1) * speed,
            missing > 0,
            speed >= 0,
    ;
    assert(missing / speed == seconds) by (nonlinear_arith)
        requires
            seconds * speed <= missing < (seconds + 1) * speed,
            speed > 0,
    ;
}

/// Where nothing moves, or nothing is missing, no time is shown but a dash; and where nothing moves,
/// no speed. A speed is an amount of bytes by the second.
pub proof fn law_nothing_moves(progress: ProgressState, speed: u64)
    ensures
        progress.bytes_per_second == 0 || progress.bytes_total <= progress.bytes_done ==> eta_text(
            progress,
        ) == "—"@,
        speed_text(0) == "—"@,
        speed > 0 ==> speed_text(speed) == bytes_text(speed) + seq!['/', 's'],
{
    reveal_strlit("/s");
    assert("/s"@ =~= seq!['/', 's']);
}

/// What each phase is called.
pub proof fn law_names_of_phases(phase: InstallPhase)
    ensures
        phase is Idle ==> phase_text(phase) == "READY"@,
        phase is Preparing ==> phase_text(phase) == "PREPARING"@,
        phase is Downloading ==> phase_text(phase) == "DOWNLOADING"@,
        phase is Verifying ==> phase_text(phase) == "VERIFIED"@,
        phase is Prerequisites ==> phase_text(phase) == "PREREQUISITES"@,
        phase is Complete ==> phase_text(phase) == "COMPLETE"@,
        phase is Cancelled ==> phase_text(phase) == "PAUSED"@,
        phase is Failed ==> phase_text(phase) == "NEEDS ATTENTION"@,
{
}

/// Whether a text is a number with one decimal and the name of a unit, and the number is that of the
/// units that the bytes make: it is no more than half a tenth off, but for what the rounding of the
/// machine's numbers can make, which is less than a ten thousandth of a tenth.
pub open spec fn is_amount(
    text: Seq<char>,
    tenths: nat,
    unit: Seq<char>,
    size: nat,
    bytes: nat,
) -> bool {
    &&& text == decimal(tenths / 10) + seq!['.'] + decimal(tenths % 10) + seq![' '] + unit
    &&& 20_000 * (tenths * size - 10 * bytes) <= 10_001 * size
    &&& 20_000 * (10 * bytes - tenths * size) <= 10_001 * size
}

/// A division by a thousand stays near.
proof fn lemma_thousandth_is_near(a: Number, x: real, p: nat)
    requires
        is_near(value(a), x, p),
        x >= 0real,
        p <= 10,
    ensures
        is_near(
            value(quotient(a, Number { mantissa: 1000, exponent: 0 })),
            x / 1000real,
            p + 3,
        ),
{
    let by = Number { mantissa: 1000, exponent: 0 };
    lemma_power(0);
    let e = power(0);
    assert(1000real * e == 1000real) by (nonlinear_arith)
        requires
            e == 1real,
    ;
    assert(is_near(value(by), 1000real, 0)) by {
        assert(1000real * 0real / 1_000_000_000_000_000real == 0real) by (nonlinear_arith);
    }
    lemma_quotient_is_near(a, by, x, 1000real, p, 0);
}

/// An amount in a unit is near to the bytes by what the unit stands for.
proof fn lemma_divided_is_near(bytes: u64, times: nat)
    requires
        bytes > 0,
        times <= 4,
    ensures
        is_near(
            value(divided(nearest(bytes as nat, 1), times)),
            (bytes as real) / (unit_size(times) as real),
            13,
        ),
{
    let b = bytes as real;
    let v = nearest(bytes as nat, 1);
    lemma_nearest_is_near(bytes as nat, 1);
    assert(b / 1real == b) by (nonlinear_arith);
    let x1 = b / 1000real;
    let x2 = x1 / 1000real;
    let x3 = x2 / 1000real;
    let x4 = x3 / 1000real;
    assert(x1 >= 0real && x2 >= 0real && x3 >= 0real && x4 >= 0real && x2 == b / 1_000_000real && x3
        == b / 1_000_000_000real && x4 == b / 1_000_000_000_000real) by (nonlinear_arith)
        requires
            x1 == b / 1000real,
            x2 == x1 / 1000real,
            x3 == x2 / 1000real,
            x4 == x3 / 1000real,
            b >= 0real,
    ;
    reveal_with_fuel(divided, 5);
    lemma_thousandth_is_near(v, b, 1);
    lemma_thousandth_is_near(divided(v, 1), x1, 4);
    lemma_thousandth_is_near(divided(v, 2), x2, 7);
    lemma_thousandth_is_near(divided(v, 3), x3, 10);
    if times == 0 {
        lemma_near_more(value(v), b, 1, 13);
    } else if times == 1 {
        lemma_near_more(value(divided(v, 1)), x1, 4, 13);
    } else if times == 2 {
        lemma_near_more(value(divided(v, 2)), x2, 7, 13);
    } else if times == 3 {
        lemma_near_more(value(divided(v, 3)), x3, 10, 13);
    }
}

/// The tenths of an amount in a unit.
proof fn lemma_tenths_are_near(bytes: u64, times: nat)
    requires
        bytes > 0,
        times <= 4,
    ensures
        ({
            let tenths = rounded_multiple(divided(nearest(bytes as nat, 1), times), 10);
            let size = unit_size(times);
            &&& times == 4 || bytes <= 1000 * size ==> 20_000 * (tenths * size - 10 * bytes) <= 10_001
                * size
            &&& times == 4 || bytes <= 1000 * size ==> 20_000 * (10 * bytes - tenths * size) <= 10_001
                * size
        }),
{
    let a = divided(nearest(bytes as nat, 1), times);
    let tenths = rounded_multiple(a, 10);
    let size = unit_size(times);
    let b = bytes as real;
    let s = size as real;
    let x = b / s;
    let v = value(a);
    let t = tenths as real;
    lemma_divided_is_near(bytes, times);
    lemma_rounded_multiple_is_near(a, 10);
    assert(13nat as real == 13real);
    assert(x * s == b && x >= 0real) by (nonlinear_arith)
        requires
            x == b / s,
            s >= 1real,
            b >= 0real,
    ;
    if times == 4 || bytes <= 1000 * size {
        assert(b <= 18_446_744_073_709_551_615real);
        assert(x <= 20_000_000real) by (nonlinear_arith)
            requires
                x * s == b,
                s >= 1_000_000_000_000real || b <= 1000real * s,
                s >= 1real,
                b <= 18_446_744_073_709_551_615real,
        ;
        let gap = x * 13real / 1_000_000_000_000_000real;
        assert(gap <= 1real / 400_000real) by (nonlinear_arith)
            requires
                gap == x * 13real / 1_000_000_000_000_000real,
                x <= 20_000_000real,
        ;
        assert(20_000real * (t - 10real * x) <= 10_001real && 20_000real * (10real * x - t)
            <= 10_001real) by (nonlinear_arith)
            requires
                2real * (t - v * 10real) <= 1real,
                2real * (v * 10real - t) <= 1real,
                v - x <= gap,
                x - v <= gap,
                gap <= 1real / 400_000real,
        ;
        lemma_real_product(tenths, size);
        let ts = tenths * size;
        assert(20_000real * (t * s - 10real * b) <= 10_001real * s && 20_000real * (10real * b - t
            * s) <= 10_001real * s) by (nonlinear_arith)
            requires
                20_000real * (t - 10real * x) <= 10_001real,
                20_000real * (10real * x - t) <= 10_001real,
                x * s == b,
                s >= 1real,
        ;
        assert((20_000 * (ts - 10 * bytes)) as real == 20_000real * (t * s - 10real * b));
        assert((20_000 * (10 * bytes - ts)) as real == 20_000real * (10real * b - t * s));
        assert((10_001 * size) as real == 10_001real * s);
    }
}

/// An amount of bytes is shown whole below a thousand, and otherwise in the greatest of the units of
/// which there is one, with one decimal, and rounded to that.
pub proof fn law_amount_is_shown_in_its_unit(bytes: u64)
    ensures
        bytes < 1_000 ==> bytes_text(bytes) == decimal(bytes as nat) + seq![' ', 'B'],
        1_000 <= bytes < 1_000_000 ==> exists|tenths: nat| #[trigger]
            is_amount(bytes_text(bytes), tenths, "KB"@, 1_000, bytes as nat),
        1_000_000 <= bytes < 1_000_000_000 ==> exists|tenths: nat| #[trigger]
            is_amount(bytes_text(bytes), tenths, "MB"@, 1_000_000, bytes as nat),
        1_000_000_000 <= bytes < 1_000_000_000_000 ==> exists|tenths: nat| #[trigger]
            is_amount(bytes_text(bytes), tenths, "GB"@, 1_000_000_000, bytes as nat),
        1_000_000_000_000 <= bytes ==> exists|tenths: nat| #[trigger]
            is_amount(bytes_text(bytes), tenths, "TB"@, 1_000_000_000_000, bytes as nat),
{
    reveal_strlit("0 B");
    reveal_strlit(" B");
    reveal_strlit(" ");
    if bytes < 1_000 {
        assert(" B"@ =~= seq![' ', 'B']);
        assert(decimal(0) =~= seq!['0']);
        assert("0 B"@ =~= decimal(0) + seq![' ', 'B']);
    } else {
        let unit = fitting(bytes).1;
        let a = divided(nearest(bytes as nat, 1), unit);
        let tenths = rounded_multiple(a, 10);
        law_amount_is_in_fitting_unit(bytes);
        lemma_fitting_is_divided(bytes);
        lemma_tenths_are_near(bytes, unit);
        let name = unit_name(unit);
        assert(decimal(tenths % 10) =~= seq![digit(tenths % 10)]);
        assert(bytes_text(bytes) =~= decimal(tenths / 10) + seq!['.'] + decimal(tenths % 10) + seq![
            ' ',
        ] + name);
        assert(is_amount(bytes_text(bytes), tenths, name, unit_size(unit), bytes as nat));
    }
}

/// The amount that is shown is the bytes, divided by a thousand for each unit.
proof fn lemma_fitting_is_divided(bytes: u64)
    requires
        bytes > 0,
    ensures
        fitting(bytes).0 == divided(nearest(bytes as nat, 1), fitting(bytes).1),
{
    reveal_with_fuel(in_fitting_unit, 5);
    reveal_with_fuel(divided, 5);
}

} // verus!
