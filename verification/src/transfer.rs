//! The running account of a download of many files: how much, how fast, how far.

use crate::double::{
    exceeds, is_near, lemma_multiple_is_near, lemma_multiple_keeps_order, lemma_near_more,
    lemma_near_to_near, lemma_nearest_is_near, lemma_nearest_is_normal, lemma_nearest_keeps_order,
    lemma_power, lemma_quotient_is_near, lemma_quotient_keeps_order, lemma_real_product,
    lemma_rounded_is_near, lemma_rounded_keeps_order, lemma_sum_is_near, lemma_two_to_64,
    lemma_two_to_adds, lemma_two_to_monotone, lemma_two_to_positive, lemma_whole_is_near, multiple,
    nearest, power, quotient, rounded, sum, two_to, value, whole, Double, Number, LEAST,
};
use crate::models::{InstallPhase, InstallProgress, ProgressState};
use crate::text::{decimal, joined, push_decimal};
use std::collections::VecDeque;
use vstd::prelude::*;

verus! {

broadcast use vstd::string::group_string_axioms;

/// The share of the whole installation that the download makes up, in percent.
pub const DOWNLOAD_SHARE: u8 = 94;

/// How long a sample counts, in nanoseconds.
pub const WINDOW: u64 = 5_000_000_000;

/// Nanoseconds in a second.
pub const SECOND: u64 = 1_000_000_000;

/// The lesser of two numbers.
pub open spec fn lesser(a: nat, b: nat) -> nat {
    if a <= b {
        a
    } else {
        b
    }
}

/// The time from one moment to another, none where the other came first.
pub open spec fn elapsed(from: u64, to: u64) -> nat {
    if to >= from {
        (to - from) as nat
    } else {
        0
    }
}

/// A time in nanoseconds, in seconds.
pub open spec fn in_seconds(nanos: nat) -> Number {
    sum(
        nearest(nanos / SECOND as nat, 1),
        quotient(nearest(nanos % SECOND as nat, 1), Number { mantissa: SECOND as nat, exponent: 0 }),
    )
}

/// The bytes per second for an amount in a time; none for a quarter of a second or less.
pub open spec fn speed_of(amount: u64, nanos: nat) -> u64 {
    if exceeds(in_seconds(nanos), 1, 4) {
        lesser(
            whole(quotient(nearest(amount as nat, 1), in_seconds(nanos))),
            u64::MAX as nat,
        ) as u64
    } else {
        0
    }
}

/// The percentage of the installation once `done` of `total` bytes are there.
pub open spec fn percent_of(done: u64, total: u64) -> u8 {
    let all = if total == 0 {
        1
    } else {
        total as nat
    };
    lesser(
        rounded(
            multiple(
                quotient(nearest(done as nat, 1), nearest(all, 1)),
                DOWNLOAD_SHARE as nat,
            ),
        ),
        DOWNLOAD_SHARE as nat,
    ) as u8
}

/// The samples that still count, from the first that is recent enough on.
pub open spec fn recent(samples: Seq<(u64, u64)>, now: u64) -> Seq<(u64, u64)>
    decreases samples.len(),
{
    if samples.len() > 0 && elapsed(samples[0].0, now) > WINDOW {
        recent(samples.drop_first(), now)
    } else {
        samples
    }
}

/// What the user reads while files are downloaded.
pub open spec fn download_detail(active: usize, current: Seq<char>) -> Seq<char> {
    if active > 1 {
        "Downloading "@ + decimal(active as nat) + " files · "@ + current
    } else {
        "Downloading "@ + current
    }
}

/// A report on an installation.
pub fn progress(
    phase: InstallPhase,
    percent: u8,
    detail: &str,
    bytes_done: u64,
    bytes_total: u64,
    bytes_per_second: u64,
    active_downloads: usize,
) -> (r: InstallProgress)
    ensures
        r@ == (ProgressState {
            phase,
            percent,
            detail: detail@,
            bytes_done,
            bytes_total,
            bytes_per_second,
            active_downloads,
        }),
{
    InstallProgress {
        phase,
        percent,
        detail: detail.to_owned(),
        bytes_done,
        bytes_total,
        bytes_per_second,
        active_downloads,
    }
}

/// The percentage of the installation once `done` of `total` bytes are there.
pub fn download_percent(done: u64, total: u64) -> (percent: u8)
    ensures
        percent == percent_of(done, total),
        percent <= DOWNLOAD_SHARE,
{
    let all: u64 = if total == 0 {
        1
    } else {
        total
    };
    let share = Double::from_integer(done).divided_by(Double::from_integer(all));
    share.times(94).round_up_to(94)
}

/// The quotient of a number and itself, which is one, however both are scaled.
proof fn lemma_nearest_to_one(m: nat, k: nat)
    requires
        m > 0,
        k <= 52,
    ensures
        nearest(two_to(k) * m, m) == (Number { mantissa: LEAST as nat, exponent: k - 52 }),
    decreases 52 - k,
{
    lemma_two_to_64();
    let t = two_to(k);
    lemma_two_to_monotone(0, k);
    lemma_two_to_monotone(k, 52);
    assert(t * m > 0) by (nonlinear_arith)
        requires
            t >= 1,
            m > 0,
    ;
    if k == 52 {
        let n: nat = LEAST as nat * m;
        assert(n / m == LEAST as nat && n % m == 0) by (nonlinear_arith)
            requires
                n == LEAST as nat * m,
                m > 0,
        ;
        assert(t * m == m * LEAST) by (nonlinear_arith)
            requires
                t == LEAST,
        ;
        assert(m * LEAST == LEAST * m && 2 * m * LEAST == 2 * (LEAST * m)) by (nonlinear_arith);
        assert(nearest(t * m, m) == Number { mantissa: LEAST as nat, exponent: 0 });
    } else {
        assert(two_to(k + 1) == 2 * t);
        assert(2 * t * m == 2 * (t * m)) by (nonlinear_arith);
        lemma_two_to_monotone(k + 1, 52);
        assert(t * m < m * LEAST) by (nonlinear_arith)
            requires
                2 * t <= LEAST,
                t >= 1,
                m > 0,
        ;
        lemma_nearest_to_one(m, k + 1);
    }
}

/// A download of which everything is there fills its share of the installation, and one of which
/// nothing is there none of it.
pub proof fn law_share_of_download(total: u64)
    ensures
        total > 0 ==> percent_of(total, total) == DOWNLOAD_SHARE,
        percent_of(0, total) == 0,
{
    if total > 0 {
        let a = nearest(total as nat, 1);
        lemma_nearest_is_normal(total as nat, 1);
        lemma_nearest_to_one(a.mantissa, 0);
        assert(two_to(0) * a.mantissa == a.mantissa);
        let one = quotient(a, a);
        assert(one == Number { mantissa: LEAST as nat, exponent: -52 });
        assert(nearest(LEAST as nat * 94, 1) == Number {
            mantissa: 94 * 0x4000_0000_0000,
            exponent: 6,
        }) by {
            reveal_with_fuel(nearest, 8);
        }
        assert(two_to(46) == 0x4000_0000_0000) by {
            lemma_two_to_64();
            reveal_with_fuel(two_to, 7);
        }
        let share = multiple(one, 94);
        assert(share == Number { mantissa: 94 * 0x4000_0000_0000, exponent: -46 });
        assert((2 * (94 * 0x4000_0000_0000nat) + 0x4000_0000_0000nat) / (2 * 0x4000_0000_0000nat)
            == 94) by (nonlinear_arith);
        assert(rounded(share) == 94);
    }
}

/// The percentage never falls while more of a download comes to be there.
pub proof fn law_percentage_never_falls(less: u64, more: u64, total: u64)
    requires
        less <= more,
    ensures
        percent_of(less, total) <= percent_of(more, total),
{
    let all = if total == 0 {
        1
    } else {
        total as nat
    };
    let a = nearest(less as nat, 1);
    let b = nearest(more as nat, 1);
    let by = nearest(all, 1);
    lemma_nearest_is_normal(all, 1);
    if less > 0 {
        lemma_nearest_is_normal(less as nat, 1);
        lemma_nearest_keeps_order(less as nat, more as nat, 1);
    }
    if more > 0 {
        lemma_nearest_is_normal(more as nat, 1);
        if less == 0 {
            lemma_quotient_keeps_order(b, b, by);
        }
    }
    lemma_quotient_keeps_order(a, b, by);
    if quotient(b, by).mantissa > 0 {
        lemma_quotient_keeps_order(b, b, by);
        lemma_multiple_keeps_order(quotient(b, by), quotient(b, by), DOWNLOAD_SHARE as nat);
    }
    lemma_multiple_keeps_order(quotient(a, by), quotient(b, by), DOWNLOAD_SHARE as nat);
    lemma_rounded_keeps_order(
        multiple(quotient(a, by), DOWNLOAD_SHARE as nat),
        multiple(quotient(b, by), DOWNLOAD_SHARE as nat),
    );
}

/// A time of up to five seconds, in seconds.
fn seconds(nanos: u64) -> (r: Double)
    requires
        nanos <= WINDOW,
    ensures
        r@ == in_seconds(nanos as nat),
        r.valid(),
        -300 <= r.exponent <= 300,
{
    let count: u64 = nanos / SECOND;
    let rest: u64 = nanos % SECOND;
    let first = Double::from_integer(count);
    let part = Double::from_integer(rest);
    let second = part.divided_by_integer(SECOND);
    proof {
        lemma_two_to_64();
        if count > 0 && rest > 0 {
            assert(two_to(3) == 8) by {
                reveal_with_fuel(two_to, 4);
            }
            assert(two_to(30) == 0x4000_0000) by {
                reveal_with_fuel(two_to, 19);
            }
            lemma_exponent_of_integer(count as nat, 3, (-first.exponent) as nat);
            lemma_exponent_of_integer(rest as nat, 30, (-part.exponent) as nat);
            lemma_exponent_of_fraction(
                part.mantissa as nat,
                (part.exponent - second.exponent) as nat,
            );
        }
    }
    first.plus(second)
}

/// The exponent of a number of up to `bits` bits.
proof fn lemma_exponent_of_integer(n: nat, bits: nat, k: nat)
    requires
        1 <= n < two_to(bits),
        0x10_0000_0000_0000 <= n * two_to(k) < 0x20_0000_0000_0000,
        bits <= 52,
    ensures
        53 - bits <= k <= 52,
{
    lemma_two_to_64();
    let t = two_to(k);
    if k > 52 {
        lemma_two_to_monotone(53, k);
        assert(two_to(53) == 2 * two_to(52));
        assert(n * t >= t) by (nonlinear_arith)
            requires
                n >= 1,
        ;
    }
    if k + bits <= 52 {
        lemma_two_to_adds(k, bits);
        lemma_two_to_monotone(k + bits, 52);
        let u = two_to(bits);
        lemma_two_to_monotone(0, k);
        assert(n * t < t * u) by (nonlinear_arith)
            requires
                n < u,
                t >= 1,
        ;
    }
}

/// By how much the exponent of a number falls when it is divided by a thousand million.
proof fn lemma_exponent_of_fraction(m: nat, k: nat)
    requires
        0x10_0000_0000_0000 <= m <= 0x20_0000_0000_0000,
        SECOND * 0x10_0000_0000_0000 <= m * two_to(k) < 2 * SECOND * 0x10_0000_0000_0000,
    ensures
        29 <= k <= 30,
{
    lemma_two_to_64();
    let t = two_to(k);
    if k > 30 {
        lemma_two_to_monotone(31, k);
        assert(two_to(32) == 2 * two_to(31));
        assert(m * t >= 0x10_0000_0000_0000 * 0x8000_0000) by (nonlinear_arith)
            requires
                m >= 0x10_0000_0000_0000,
                t >= 0x8000_0000,
        ;
    }
    if k < 29 {
        lemma_two_to_monotone(k, 28);
        assert(two_to(32) == 16 * two_to(28)) by {
            reveal_with_fuel(two_to, 5);
        }
        assert(m * t <= 0x20_0000_0000_0000 * 0x1000_0000) by (nonlinear_arith)
            requires
                m <= 0x20_0000_0000_0000,
                t <= 0x1000_0000,
        ;
    }
}

/// The bytes per second for an amount in a time of up to five seconds.
fn speed(amount: u64, nanos: u64) -> (r: u64)
    requires
        nanos <= WINDOW,
    ensures
        r == speed_of(amount, nanos as nat),
{
    let time = seconds(nanos);
    if time.exceeds(1, 4) {
        proof {
            if time.mantissa == 0 {
                assert(0 * two_to(time.exponent as nat) * 4 == 0) by (nonlinear_arith);
                crate::double::lemma_two_to_positive((-time.exponent) as nat);
            }
        }
        Double::from_integer(amount).divided_by(time).to_integer()
    } else {
        0
    }
}

/// The running account of a download.
pub struct Transfer {
    total: u64,
    completed: u64,
    active: usize,
    current: String,
    samples: VecDeque<(u64, u64)>,
}

/// What the account of a download holds.
pub struct TransferState {
    /// The bytes of all files.
    pub total: u64,
    /// The bytes that are there.
    pub completed: u64,
    /// The files that are being downloaded.
    pub active: usize,
    /// The file that was begun last.
    pub current: Seq<char>,
    /// Moments, in nanoseconds, and the bytes that were there.
    pub samples: Seq<(u64, u64)>,
}

impl View for Transfer {
    type V = TransferState;

    closed spec fn view(&self) -> TransferState {
        TransferState {
            total: self.total,
            completed: self.completed,
            active: self.active,
            current: self.current@,
            samples: self.samples@,
        }
    }
}

impl TransferState {
    /// The bytes that are there, no more than there are in all.
    pub open spec fn done(self) -> u64 {
        if self.completed <= self.total {
            self.completed
        } else {
            self.total
        }
    }

    /// The account once a file is begun.
    pub open spec fn begun(self, path: Seq<char>) -> TransferState {
        TransferState { active: (self.active + 1) as usize, current: path, ..self }
    }

    /// The account once a file has come to its end.
    pub open spec fn ended(self) -> TransferState {
        TransferState { active: (self.active - 1) as usize, ..self }
    }

    /// The account once a file of which `before` bytes were there has `bytes` there.
    pub open spec fn advanced(self, before: u64, bytes: u64) -> TransferState {
        TransferState {
            completed: if bytes > before {
                self.completed.wrapping_add((bytes - before) as u64)
            } else {
                self.completed
            },
            ..self
        }
    }

    /// The report to make at a moment.
    pub open spec fn report(self, now: u64) -> ProgressState {
        ProgressState {
            phase: InstallPhase::Downloading,
            percent: percent_of(self.done(), self.total),
            detail: download_detail(self.active, self.current),
            bytes_done: self.done(),
            bytes_total: self.total,
            bytes_per_second: self.speed(now),
            active_downloads: self.active,
        }
    }

    /// The samples once one has been taken at a moment.
    pub open spec fn sampled(self, now: u64) -> Seq<(u64, u64)> {
        recent(self.samples.push((now, self.done())), now)
    }

    /// The speed at a moment, since the first sample that still counts.
    pub open spec fn speed(self, now: u64) -> u64 {
        let kept = self.sampled(now);
        if kept.len() == 0 {
            0
        } else {
            let (at, bytes) = kept[0];
            speed_of(
                (if self.done() >= bytes {
                    self.done() - bytes
                } else {
                    0
                }) as u64,
                elapsed(at, now),
            )
        }
    }
}

impl Transfer {
    /// A download of which nothing is there.
    pub fn new(total: u64) -> (r: Transfer)
        ensures
            r@ == (TransferState {
                total,
                completed: 0,
                active: 0,
                current: Seq::empty(),
                samples: Seq::empty(),
            }),
    {
        Transfer { total, completed: 0, active: 0, current: String::new(), samples: VecDeque::new() }
    }

    /// A file is begun.
    pub fn begin_file(&mut self, path: &str)
        requires
            old(self)@.active < usize::MAX,
        ensures
            final(self)@ == old(self)@.begun(path@),
    {
        self.active = self.active + 1;
        self.current = path.to_owned();
    }

    /// A file has come to its end.
    pub fn end_file(&mut self)
        requires
            old(self)@.active > 0,
        ensures
            final(self)@ == old(self)@.ended(),
    {
        self.active = self.active - 1;
    }

    /// A file of which `before` bytes were there now has `bytes` there.
    pub fn advance(&mut self, before: u64, bytes: u64)
        ensures
            final(self)@ == old(self)@.advanced(before, bytes),
    {
        if bytes > before {
            self.completed = self.completed.wrapping_add(bytes - before);
        }
    }

    /// The bytes that are there, no more than there are in all.
    pub fn done(&self) -> (r: u64)
        ensures
            r == self@.done(),
    {
        if self.completed <= self.total {
            self.completed
        } else {
            self.total
        }
    }

    /// The files that are being downloaded.
    pub fn active(&self) -> (r: usize)
        ensures
            r == self@.active,
    {
        self.active
    }

    /// Takes a sample, and reports on the download.
    pub fn tick(&mut self, now: u64) -> (r: InstallProgress)
        ensures
            final(self)@ == (TransferState { samples: old(self)@.sampled(now), ..old(self)@ }),
            r@ == old(self)@.report(now),
    {
        let done: u64 = self.done();
        self.samples.push_back((now, done));
        let ghost taken = self.samples@;
        let mut rate: u64 = 0;
        while self.samples.len() > 0
            invariant_except_break
                rate == 0,
                self.total == old(self).total,
                self.completed == old(self).completed,
                self.active == old(self).active,
                self.current == old(self).current,
                done == old(self)@.done(),
                recent(taken, now) == recent(self.samples@, now),
            ensures
                self.total == old(self).total,
                self.completed == old(self).completed,
                self.active == old(self).active,
                self.current == old(self).current,
                done == old(self)@.done(),
                recent(taken, now) == self.samples@,
                rate == if self.samples@.len() == 0 {
                    0
                } else {
                    speed_of(
                        (if done >= self.samples@[0].1 {
                            done - self.samples@[0].1
                        } else {
                            0
                        }) as u64,
                        elapsed(self.samples@[0].0, now),
                    )
                },
            decreases self.samples@.len(),
        {
            let first = self.samples[0];
            let time: u64 = if now >= first.0 {
                now - first.0
            } else {
                0
            };
            if time <= WINDOW {
                let amount: u64 = if done >= first.1 {
                    done - first.1
                } else {
                    0
                };
                rate = speed(amount, time);
                break;
            }
            let ghost before = self.samples@;
            let _ = self.samples.pop_front();
            assert(self.samples@ =~= before.drop_first());
        }
        let detail = if self.active > 1 {
            let mut text = "Downloading ".to_owned();
            push_decimal(&mut text, self.active as u128);
            text.append(" files · ");
            text.append(self.current.as_str());
            text
        } else {
            joined("Downloading ", self.current.as_str())
        };
        progress(
            InstallPhase::Downloading,
            download_percent(done, self.total),
            detail.as_str(),
            done,
            self.total,
            rate,
            self.active,
        )
    }
}

/// A report on a download says how many bytes are there, never more than there are in all, how many
/// files are downloaded at a time, and which was begun last.
pub proof fn law_report_on_a_download(state: TransferState, now: u64)
    ensures
        ({
            let report = state.report(now);
            &&& report.phase is Downloading
            &&& report.bytes_total == state.total
            &&& report.bytes_done <= report.bytes_total
            &&& state.completed <= state.total ==> report.bytes_done == state.completed
            &&& state.completed > state.total ==> report.bytes_done == state.total
            &&& report.percent == percent_of(report.bytes_done, report.bytes_total)
            &&& report.active_downloads == state.active
            &&& report.bytes_per_second == state.speed(now)
            &&& state.active <= 1 ==> report.detail == "Downloading "@ + state.current
            &&& state.active > 1 ==> report.detail == "Downloading "@ + decimal(state.active as nat)
                + " files · "@ + state.current
        }),
{
}

/// The account of a download: a file that is begun counts until it ends, and its path is shown; the
/// bytes that came are added, and a count that falls takes none away.
pub proof fn law_account_is_kept(state: TransferState, path: Seq<char>, before: u64, bytes: u64)
    requires
        state.active < usize::MAX,
    ensures
        state.begun(path) == (TransferState {
            active: (state.active + 1) as usize,
            current: path,
            ..state
        }),
        state.begun(path).ended().active == state.active,
        state.begun(path).ended() == (TransferState { current: path, ..state }),
        bytes <= before ==> state.advanced(before, bytes) == state,
        bytes > before && state.completed + (bytes - before) <= u64::MAX ==> state.advanced(
            before,
            bytes,
        ) == (TransferState { completed: (state.completed + (bytes - before)) as u64, ..state }),
{
}

/// Only samples of the last five seconds count for the speed: those that do are the latest, every
/// one that does not is older, and the first that does is not.
pub proof fn law_samples_of_five_seconds_count(samples: Seq<(u64, u64)>, now: u64)
    ensures
        ({
            let kept = recent(samples, now);
            let dropped = samples.len() - kept.len();
            &&& kept.len() <= samples.len()
            &&& kept == samples.skip(dropped)
            &&& forall|i: int|
                0 <= i < dropped ==> now >= (#[trigger] samples[i]).0 && now - samples[i].0
                    > 5_000_000_000
            &&& kept.len() > 0 ==> now <= kept[0].0 || now - kept[0].0 <= 5_000_000_000
        }),
    decreases samples.len(),
{
    if samples.len() > 0 && elapsed(samples[0].0, now) > WINDOW {
        let rest = samples.drop_first();
        law_samples_of_five_seconds_count(rest, now);
        let kept = recent(samples, now);
        let dropped = samples.len() - kept.len();
        assert(kept =~= samples.skip(dropped));
        assert forall|i: int| 0 <= i < dropped implies now >= (#[trigger] samples[i]).0 && now
            - samples[i].0 > 5_000_000_000 by {
            if i > 0 {
                assert(rest[i - 1] == samples[i]);
            }
        }
    } else {
        assert(samples.skip(0) =~= samples);
    }
}

/// The speed at a moment is what came since the first sample that still counts, by the time since
/// then. The sample of the moment itself is taken last, and always counts.
pub proof fn law_speed_counts_from_the_first_sample(state: TransferState, now: u64)
    ensures
        ({
            let kept = state.sampled(now);
            &&& kept == recent(state.samples.push((now, state.done())), now)
            &&& kept.len() > 0
            &&& kept.last() == (now, state.done())
            &&& kept[0].0 <= now && kept[0].1 <= state.done() ==> state.speed(now) == speed_of(
                (state.done() - kept[0].1) as u64,
                (now - kept[0].0) as nat,
            )
            &&& kept[0].0 > now ==> state.speed(now) == 0
            &&& kept[0].1 > state.done() ==> state.speed(now) == 0
        }),
{
    let all = state.samples.push((now, state.done()));
    let kept = recent(all, now);
    law_samples_of_five_seconds_count(all, now);
    if kept.len() == 0 {
        assert(now - all[all.len() - 1].0 > 5_000_000_000);
    }
    assert(kept.last() == all.last());
    let time = elapsed(kept[0].0, now);
    if kept[0].0 > now {
        law_speed_is_amount_by_time(
            (if state.done() >= kept[0].1 {
                state.done() - kept[0].1
            } else {
                0
            }) as u64,
            0,
        );
    } else if kept[0].1 > state.done() {
        law_speed_is_amount_by_time(0, time);
        let speed = speed_of(0, time) as int;
        if time > 250_000_000 {
            assert(speed * time <= 0);
            assert(speed == 0) by (nonlinear_arith)
                requires
                    speed * time <= 0,
                    speed >= 0,
                    time > 0,
            ;
        }
    }
}

/// An integer, as a number, is near to itself.
proof fn lemma_integer_is_near(n: nat)
    ensures
        is_near(value(nearest(n, 1)), n as real, 1),
{
    let nr = n as real;
    if n > 0 {
        lemma_nearest_is_near(n, 1);
        assert(nr / 1real == nr) by (nonlinear_arith);
    } else {
        let e = power(0);
        assert(0real * e == 0real) by (nonlinear_arith);
    }
}

/// The percentage of a download is its share of ninety-four, to the nearest whole number: 94 times
/// the bytes that are there by all bytes, give or take a half and what the rounding of the machine's
/// numbers can make, which is less than a thousand millionth. It is 94 where there is at least as much
/// as there is in all, and never more.
pub proof fn law_percentage_is_the_share(done: u64, total: u64)
    ensures
        percent_of(done, total) <= 94,
        total > 0 && done >= total ==> percent_of(done, total) == 94,
        total > 0 && done <= total ==> {
            let percent = percent_of(done, total) as int;
            &&& 2_000_000_000 * (percent * total - 94 * done) <= 1_000_000_001 * total
            &&& 2_000_000_000 * (94 * done - percent * total) <= 1_000_000_001 * total
        },
        percent_of(done, 0) == percent_of(done, 1),
{
    if total > 0 && done >= total {
        law_share_of_download(total);
        law_percentage_never_falls(total, done, total);
    }
    if total > 0 && done <= total {
        let a = nearest(done as nat, 1);
        let b = nearest(total as nat, 1);
        let dr = done as real;
        let tr = total as real;
        lemma_integer_is_near(done as nat);
        lemma_integer_is_near(total as nat);
        lemma_nearest_is_normal(total as nat, 1);
        lemma_quotient_is_near(a, b, dr, tr, 1, 1);
        let x = dr / tr;
        assert(0real <= x <= 1real && x * tr == dr) by (nonlinear_arith)
            requires
                x == dr / tr,
                0real <= dr <= tr,
                tr > 0real,
        ;
        let q = quotient(a, b);
        lemma_multiple_is_near(q, 94, x, 5);
        let s = multiple(q, 94);
        let v = value(s);
        let y = x * 94real;
        lemma_rounded_is_near(s);
        let r = rounded(s);
        let rr = r as real;
        let gap = 1real / 4_000_000_000real;
        assert(y * 7real / 1_000_000_000_000_000real <= gap) by (nonlinear_arith)
            requires
                y == x * 94real,
                0real <= x <= 1real,
                gap == 1real / 4_000_000_000real,
        ;
        assert(7nat as real == 7real);
        assert(v - y <= gap && y - v <= gap);
        assert(y <= 94real) by (nonlinear_arith)
            requires
                y == x * 94real,
                x <= 1real,
        ;
        assert(r <= 94) by {
            assert(rr < 95real);
        }
        let percent = percent_of(done, total) as nat;
        assert(percent == r);
        assert(2real * (rr - y) <= 1real + 2real * gap && 2real * (y - rr) <= 1real + 2real * gap);
        lemma_real_product(percent, total as nat);
        assert(2_000_000_000real * (rr * tr - 94real * dr) <= 1_000_000_001real * tr
            && 2_000_000_000real * (94real * dr - rr * tr) <= 1_000_000_001real * tr)
            by (nonlinear_arith)
            requires
                2real * (rr - y) <= 1real + 2real * gap,
                2real * (y - rr) <= 1real + 2real * gap,
                y == x * 94real,
                x * tr == dr,
                tr > 0real,
                gap == 1real / 4_000_000_000real,
        ;
        let pt = percent * total as nat;
        assert(pt as real == rr * tr);
        assert((2_000_000_000 * (pt - 94 * done)) as real == 2_000_000_000real * (rr * tr - 94real
            * dr));
        assert((1_000_000_001 * total) as real == 1_000_000_001real * tr);
        assert((2_000_000_000 * (94 * done - pt)) as real == 2_000_000_000real * (94real * dr - rr
            * tr));
    }
}

/// A number is greater than a quarter exactly if what it stands for is.
proof fn lemma_exceeds_a_quarter(a: Number)
    ensures
        exceeds(a, 1, 4) <==> 4real * value(a) > 1real,
{
    let m = a.mantissa;
    let mr = m as real;
    if a.exponent >= 0 {
        let t = two_to(a.exponent as nat);
        lemma_real_product(m, t);
        lemma_real_product(m * t, 4);
    } else {
        let t = two_to((-a.exponent) as nat);
        lemma_two_to_positive((-a.exponent) as nat);
        let tr = t as real;
        let v = mr * (1real / tr);
        assert(value(a) == v);
        assert(v * tr == mr) by (nonlinear_arith)
            requires
                v == mr * (1real / tr),
                tr > 0real,
        ;
        assert((m * 4) as real == 4real * mr);
        assert((1 * t) as real == tr);
        assert((4real * v > 1real) == (4real * mr > tr)) by (nonlinear_arith)
            requires
                v * tr == mr,
                tr > 0real,
        ;
    }
}

/// A time in seconds is near to the time.
proof fn lemma_seconds_are_near(nanos: nat)
    ensures
        is_near(value(in_seconds(nanos)), (nanos as real) / 1_000_000_000real, 7),
{
    let c = nanos / 1_000_000_000;
    let r = nanos % 1_000_000_000;
    let by = Number { mantissa: 1_000_000_000, exponent: 0 };
    let first = nearest(c, 1);
    let part = nearest(r, 1);
    let second = quotient(part, by);
    let cr = c as real;
    let rr = r as real;
    let unit = 1_000_000_000real;
    lemma_power(0);
    let e = power(0);
    assert(unit * e == unit) by (nonlinear_arith)
        requires
            e == 1real,
    ;
    assert(value(by) == unit);
    assert(is_near(value(by), unit, 0)) by {
        assert(unit * 0real / 1_000_000_000_000_000real == 0real) by (nonlinear_arith);
    }
    lemma_integer_is_near(c);
    lemma_integer_is_near(r);
    lemma_quotient_is_near(part, by, rr, unit, 1, 0);
    let x = cr + rr / unit;
    let y = rr / unit;
    assert(y >= 0real) by (nonlinear_arith)
        requires
            y == rr / unit,
            rr >= 0real,
            unit > 0real,
    ;
    lemma_near_more(value(first), cr, 1, 4);
    let v = value(first) + value(second);
    let tiny = 1_000_000_000_000_000real;
    assert(cr * 4real / tiny + y * 4real / tiny == x * 4real / tiny) by (nonlinear_arith)
        requires
            x == cr + y,
            tiny == 1_000_000_000_000_000real,
    ;
    assert(is_near(v, x, 4));
    lemma_sum_is_near(first, second);
    lemma_near_to_near(value(in_seconds(nanos)), v, x, 1, 4);
    assert(nanos == c * 1_000_000_000 + r);
    let nr = nanos as real;
    assert(nr == cr * unit + rr);
    assert(x == nr / unit) by (nonlinear_arith)
        requires
            nr == cr * unit + rr,
            x == cr + rr / unit,
            unit == 1_000_000_000real,
    ;
    lemma_near_more(value(in_seconds(nanos)), x, 6, 7);
}

/// A quarter of a second is a quarter.
proof fn lemma_quarter_of_a_second()
    ensures
        !exceeds(in_seconds(250_000_000), 1, 4),
{
    let by = Number { mantissa: 1_000_000_000, exponent: 0 };
    assert(nearest(250_000_000, 1) == Number { mantissa: 8388608000000000, exponent: -25 }) by {
        reveal_with_fuel(nearest, 27);
    }
    assert(nearest(8388608000000000, 1_000_000_000) == Number {
        mantissa: LEAST as nat,
        exponent: -29,
    }) by {
        reveal_with_fuel(nearest, 31);
    }
    assert(nearest(0, 1).mantissa == 0);
    assert(in_seconds(250_000_000) == Number { mantissa: LEAST as nat, exponent: -54 });
    lemma_two_to_64();
}

/// The speed is how many bytes came by the second, in whole numbers: the amount by the time, less
/// what is beyond a whole, give or take what the rounding of the machine's numbers can make, which is
/// less than a millionth of a millionth of it. For a quarter of a second or less there is none.
pub proof fn law_speed_is_amount_by_time(amount: u64, nanos: nat)
    ensures
        nanos <= 250_000_000 ==> speed_of(amount, nanos) == 0,
        nanos > 250_000_000 ==> {
            let speed = speed_of(amount, nanos) as int;
            let all = amount * 1_000_000_000;
            &&& 1_000_000_000_000 * (speed * nanos - all) <= all
            &&& speed < u64::MAX ==> 1_000_000_000_000 * (all - (speed + 1) * nanos) <= all
        },
{
    let t = in_seconds(nanos);
    let v = value(t);
    let nr = nanos as real;
    let unit = 1_000_000_000real;
    let x = nr / unit;
    let tiny = 1_000_000_000_000_000real;
    lemma_seconds_are_near(nanos);
    lemma_exceeds_a_quarter(t);
    assert(x * unit == nr && x >= 0real) by (nonlinear_arith)
        requires
            x == nr / unit,
            unit == 1_000_000_000real,
            nr >= 0real,
    ;
    assert(7nat as real == 7real);
    if nanos < 250_000_000 {
        assert(nr <= 249_999_999real);
        assert(4real * (x + x * 7real / tiny) <= 1real) by (nonlinear_arith)
            requires
                x * unit == nr,
                nr <= 249_999_999real,
                unit == 1_000_000_000real,
                tiny == 1_000_000_000_000_000real,
        ;
    } else if nanos == 250_000_000 {
        lemma_quarter_of_a_second();
    } else {
        assert(nr >= 250_000_001real);
        assert(4real * (x - x * 7real / tiny) > 1real) by (nonlinear_arith)
            requires
                x * unit == nr,
                nr >= 250_000_001real,
                unit == 1_000_000_000real,
                tiny == 1_000_000_000_000_000real,
        ;
        assert(v > 0real);
        if t.mantissa == 0 {
            let e = power(t.exponent);
            assert(0real * e == 0real) by (nonlinear_arith);
        }
        let a = nearest(amount as nat, 1);
        let ar = amount as real;
        lemma_integer_is_near(amount as nat);
        assert(x > 0real);
        lemma_quotient_is_near(a, t, ar, x, 1, 7);
        let q = quotient(a, t);
        let w = value(q);
        let z = ar / x;
        lemma_whole_is_near(q);
        let s = speed_of(amount, nanos) as nat;
        let sr = s as real;
        assert(11nat as real == 11real);
        let all: nat = (amount * 1_000_000_000) as nat;
        let allr = all as real;
        assert(allr == ar * unit);
        assert(z * nr == allr && z >= 0real) by (nonlinear_arith)
            requires
                z == ar / x,
                x * unit == nr,
                x > 0real,
                allr == ar * unit,
                ar >= 0real,
        ;
        assert(s <= whole(q));
        assert(sr <= w);
        let gap = z * 11real / tiny;
        assert(gap <= z / 1_000_000_000_000real) by (nonlinear_arith)
            requires
                gap == z * 11real / tiny,
                tiny == 1_000_000_000_000_000real,
                z >= 0real,
        ;
        lemma_real_product(s, nanos);
        let sn = s * nanos;
        assert(1_000_000_000_000real * (sr * nr - allr) <= allr) by (nonlinear_arith)
            requires
                sr <= z + gap,
                gap <= z / 1_000_000_000_000real,
                z * nr == allr,
                nr > 0real,
        ;
        assert(sn as real == sr * nr);
        assert((1_000_000_000_000 * (sn - all)) as real == 1_000_000_000_000real * (sr * nr
            - allr));
        if s < u64::MAX {
            assert(s == whole(q));
            assert(1_000_000_000_000real * (allr - (sr + 1real) * nr) <= allr) by (nonlinear_arith)
                requires
                    z - gap <= sr + 1real,
                    gap <= z / 1_000_000_000_000real,
                    z * nr == allr,
                    nr > 0real,
            ;
            assert((sr + 1real) * nr == sr * nr + nr) by (nonlinear_arith);
            assert((s + 1) * nanos == sn + nanos) by (nonlinear_arith)
                requires
                    sn == s * nanos,
            ;
            assert((1_000_000_000_000 * (all - (sn + nanos))) as real == 1_000_000_000_000real * (
            allr - (sr * nr + nr)));
        }
    }
}

} // verus!
