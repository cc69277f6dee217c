use vstd::prelude::*;

use crate::error::SimError;
use crate::text::all_digits;
use crate::text::chars_of;
use crate::text::decimal_string;
use crate::text::is_digit;
use crate::text::is_white_space;
use crate::text::occurs_at;
use crate::text::find_from;
use crate::text::find_in;
use crate::text::parse_decimal;
use crate::text::parse_decimal_in;
use crate::text::trim;
use crate::text::trim_end;
use crate::text::trim_start;
use crate::text::trim_bounds;

verus! {

/// One reading of the simulator's throughput monitor: seconds since the
/// monitor started and packets counted so far.
#[derive(Clone, Copy, Debug, PartialEq, Eq, Structural)]
pub struct TelemetrySample {
    pub elapsed_s: u64,
    pub total_packets: u64,
}

/// The marker that closes the elapsed-seconds field: `s]`.
pub open spec fn seconds_marker() -> Seq<char> {
    seq!['s', ']']
}

/// The marker that opens the packet total: `total: `.
pub open spec fn total_marker() -> Seq<char> {
    seq!['t', 'o', 't', 'a', 'l', ':', ' ']
}

/// The marker that closes the packet total: ` pkts`.
pub open spec fn pkts_marker() -> Seq<char> {
    seq![' ', 'p', 'k', 't', 's']
}

/// The elapsed seconds of a monitor line: the line starts with `[`, and the
/// text between it and the first `s]` after it, trimmed of white space, is
/// an unsigned 64-bit number.
pub open spec fn elapsed_field(line: Seq<char>) -> Option<nat> {
    if line.len() > 0 && line[0] == '[' {
        match find_from(line, seconds_marker(), 1) {
            Some(i) => parse_decimal(trim(line.subrange(1, i)), u64::MAX as nat),
            None => None,
        }
    } else {
        None
    }
}

/// The packet total of a monitor line: the text between the first `total: `
/// and the first ` pkts` after it is an unsigned 64-bit number.
pub open spec fn total_field(line: Seq<char>) -> Option<nat> {
    match find_from(line, total_marker(), 0) {
        Some(i) => match find_from(line, pkts_marker(), i + 7) {
            Some(j) => parse_decimal(line.subrange(i + 7, j), u64::MAX as nat),
            None => None,
        },
        None => None,
    }
}

/// The sample that a monitor line carries, if it carries both fields.
pub open spec fn sample_of_line(line: Seq<char>) -> Option<TelemetrySample> {
    match (elapsed_field(line), total_field(line)) {
        (Some(e), Some(t)) => Some(TelemetrySample { elapsed_s: e as u64, total_packets: t as u64 }),
        _ => None,
    }
}

/// Parses one line of the fresnel throughput monitor, such as
/// `[   3s] SPD1:    123456 pkt/s | ... | total: 246912 pkts, 0.000123 sim-s`.
pub fn parse_telemetry_line(line: &str) -> (out: Option<TelemetrySample>)
    ensures
        out == sample_of_line(line@),
{
    let cs = chars_of(line);
    if cs.len() == 0 || cs[0] != '[' {
        return None;
    }
    let close = vec!['s', ']'];
    assert(close@ =~= seconds_marker());
    let i = match find_in(&cs, &close, 1) {
        Some(i) => i,
        None => return None,
    };
    proof {
        crate::text::lemma_find_from(cs@, seconds_marker(), 1);
    }
    let (a, b) = trim_bounds(&cs, 1, i);
    let elapsed_s = match parse_decimal_in(&cs, a, b, u64::MAX) {
        Some(v) => v,
        None => return None,
    };
    let total = vec!['t', 'o', 't', 'a', 'l', ':', ' '];
    assert(total@ =~= total_marker());
    let t = match find_in(&cs, &total, 0) {
        Some(t) => t,
        None => return None,
    };
    proof {
        crate::text::lemma_find_from(cs@, total_marker(), 0);
    }
    let pkts = vec![' ', 'p', 'k', 't', 's'];
    assert(pkts@ =~= pkts_marker());
    let p = match find_in(&cs, &pkts, t + 7) {
        Some(p) => p,
        None => return None,
    };
    proof {
        crate::text::lemma_find_from(cs@, pkts_marker(), t + 7);
    }
    let total_packets = match parse_decimal_in(&cs, t + 7, p, u64::MAX) {
        Some(v) => v,
        None => return None,
    };
    Some(TelemetrySample { elapsed_s, total_packets })
}

/// A finished measurement: the first monitor sample and the first sample at
/// least the window's length of seconds after it.
#[derive(Clone, Copy, Debug, PartialEq, Eq, Structural)]
pub struct Measurement {
    pub first: TelemetrySample,
    pub last: TelemetrySample,
}

/// `s` lies at least `window` seconds after `first`.
pub open spec fn closes_window(first: TelemetrySample, s: TelemetrySample, window: u64) -> bool {
    s.elapsed_s >= first.elapsed_s + window
}

/// The measurement that one more line completes, if it completes one.
pub open spec fn window_step(
    first: Option<TelemetrySample>,
    line: Seq<char>,
    window: u64,
) -> Option<Measurement> {
    match (first, sample_of_line(line)) {
        (Some(f), Some(s)) => if closes_window(f, s, window) {
            Some(Measurement { first: f, last: s })
        } else {
            None
        },
        _ => None,
    }
}

/// The opening sample after one more line: the first sample seen so far.
pub open spec fn window_next(first: Option<TelemetrySample>, line: Seq<char>) -> Option<
    TelemetrySample,
> {
    match first {
        Some(f) => Some(f),
        None => sample_of_line(line),
    }
}

/// The measurement that the monitor lines `lines` complete, given the
/// opening sample seen before them.
pub open spec fn measure_lines(
    first: Option<TelemetrySample>,
    lines: Seq<Seq<char>>,
    window: u64,
) -> Option<Measurement>
    decreases lines.len(),
{
    if lines.len() == 0 {
        None
    } else {
        match window_step(first, lines[0], window) {
            Some(m) => Some(m),
            None => measure_lines(window_next(first, lines[0]), lines.drop_first(), window),
        }
    }
}

/// The views of a list of lines.
pub open spec fn line_views(lines: Seq<String>) -> Seq<Seq<char>> {
    lines.map_values(|l: String| l@)
}

/// What a telemetry measurement has seen so far: the window's length and
/// the opening sample, once one has come.
#[derive(Clone, Copy, Debug)]
pub struct TelemetryWindow {
    pub window_secs: u64,
    pub first: Option<TelemetrySample>,
}

/// What one more monitor line leads to.
#[derive(Clone, Copy, Debug, PartialEq, Eq, Structural)]
pub enum WindowStep {
    /// Keep reading lines.
    Waiting,
    /// The window is complete.
    Measured(Measurement),
}

impl TelemetryWindow {
    /// A measurement over `window_secs` seconds that has seen no sample yet.
    pub fn new(window_secs: u64) -> (w: Self)
        ensures
            w.window_secs == window_secs,
            w.first is None,
    {
        TelemetryWindow { window_secs, first: None }
    }

    /// Takes in one line of the simulator's stdout. Lines that carry no
    /// sample are skipped; the first sample opens the window, and the first
    /// later sample at least `window_secs` after it closes it.
    pub fn step(&mut self, line: &str) -> (r: WindowStep)
        ensures
            final(self).window_secs == old(self).window_secs,
            final(self).first == window_next(old(self).first, line@),
            r == (match window_step(old(self).first, line@, old(self).window_secs) {
                Some(m) => WindowStep::Measured(m),
                None => WindowStep::Waiting,
            }),
            old(self).first matches Some(f) ==> (sample_of_line(line@) matches Some(s) ==> (
            s.elapsed_s >= f.elapsed_s + old(self).window_secs ==> r == WindowStep::Measured(
                Measurement { first: f, last: s },
            ))),
            old(self).first matches Some(f) ==> (sample_of_line(line@) matches Some(s) ==> (
            s.elapsed_s < f.elapsed_s + old(self).window_secs ==> r == WindowStep::Waiting)),
            old(self).first is None || sample_of_line(line@) is None ==> r
                == WindowStep::Waiting,
    {
        let sample = match parse_telemetry_line(line) {
            Some(s) => s,
            None => return WindowStep::Waiting,
        };
        match self.first {
            None => {
                self.first = Some(sample);
                WindowStep::Waiting
            },
            Some(f) => {
                if sample.elapsed_s >= f.elapsed_s && sample.elapsed_s - f.elapsed_s
                    >= self.window_secs {
                    WindowStep::Measured(Measurement { first: f, last: sample })
                } else {
                    WindowStep::Waiting
                }
            },
        }
    }
}

/// Runs a measurement over `window_secs` seconds on the lines `lines`, in
/// order, and gives what it measured, or `None` if the lines end first.
pub fn measure_window(lines: &Vec<String>, window_secs: u64) -> (out: Option<Measurement>)
    ensures
        out == measure_lines(None, line_views(lines@), window_secs),
{
    let ghost all = line_views(lines@);
    let mut w = TelemetryWindow::new(window_secs);
    let mut i: usize = 0;
    assert(all.skip(0) =~= all);
    while i < lines.len()
        invariant
            i <= lines.len(),
            all == line_views(lines@),
            w.window_secs == window_secs,
            measure_lines(None, all, window_secs) == measure_lines(
                w.first,
                all.skip(i as int),
                window_secs,
            ),
        decreases lines.len() - i,
    {
        let ghost rest = all.skip(i as int);
        assert(rest[0] == lines@[i as int]@);
        assert(rest.drop_first() =~= all.skip(i + 1));
        match w.step(lines[i].as_str()) {
            WindowStep::Measured(m) => {
                return Some(m);
            },
            WindowStep::Waiting => {},
        }
        i = i + 1;
    }
    None
}

/// What a telemetry run gives: its measurement, or, when the simulator's
/// output ended before the window closed, the error that says so.
pub fn telemetry_outcome(measured: Option<Measurement>) -> (r: Result<Measurement, SimError>)
    ensures
        measured matches Some(m) ==> r == Ok::<Measurement, SimError>(m),
        measured is None ==> r == Err::<Measurement, SimError>(SimError::TelemetryEnded),
{
    match measured {
        Some(m) => Ok(m),
        None => Err(SimError::TelemetryEnded),
    }
}

impl Measurement {
    /// Packets counted inside the window.
    pub fn packets(&self) -> (n: u64)
        requires
            self.first.total_packets <= self.last.total_packets,
        ensures
            n == self.last.total_packets - self.first.total_packets,
    {
        self.last.total_packets - self.first.total_packets
    }

    /// Seconds the window spans.
    pub fn seconds(&self) -> (n: u64)
        requires
            self.first.elapsed_s <= self.last.elapsed_s,
        ensures
            n == self.last.elapsed_s - self.first.elapsed_s,
    {
        self.last.elapsed_s - self.first.elapsed_s
    }
}

/// Line `j` of `lines` carries a sample at least `window` seconds after `f`.
pub open spec fn line_closes(lines: Seq<Seq<char>>, j: int, f: TelemetrySample, window: u64) -> bool {
    sample_of_line(lines[j]) matches Some(s) && closes_window(f, s, window)
}

/// Lines `i` and `j` bound a measurement over `lines`: line `i` carries the
/// first sample of all, and line `j` is the first line after it whose sample
/// lies at least `window` seconds later.
pub open spec fn bounds_measurement(lines: Seq<Seq<char>>, window: u64, i: int, j: int) -> bool {
    &&& 0 <= i < j < lines.len()
    &&& sample_of_line(lines[i]) is Some
    &&& forall|k: int| 0 <= k < i ==> #[trigger] sample_of_line(lines[k]) is None
    &&& line_closes(lines, j, sample_of_line(lines[i])->0, window)
    &&& forall|k: int|
        i < k < j ==> !#[trigger] line_closes(lines, k, sample_of_line(lines[i])->0, window)
}

/// With an opening sample `f`, the measurement is closed by the first line
/// whose sample lies at least `window` seconds after `f`.
proof fn lemma_measure_opened(f: TelemetrySample, lines: Seq<Seq<char>>, window: u64)
    ensures
        measure_lines(Some(f), lines, window) matches Some(m) ==> m.first == f && exists|j: int|
            0 <= j < lines.len() && #[trigger] line_closes(lines, j, f, window) && m.last
                == sample_of_line(lines[j])->0 && forall|k: int|
                0 <= k < j ==> !#[trigger] line_closes(lines, k, f, window),
        measure_lines(Some(f), lines, window) is None ==> forall|j: int|
            0 <= j < lines.len() ==> !#[trigger] line_closes(lines, j, f, window),
    decreases lines.len(),
{
    if lines.len() > 0 {
        let rest = lines.drop_first();
        lemma_measure_opened(f, rest, window);
        assert forall|k: int| 0 <= k < rest.len() implies #[trigger] rest[k] == lines[k + 1] by {}
        if line_closes(lines, 0, f, window) {
        } else {
            match measure_lines(Some(f), rest, window) {
                Some(m) => {
                    let j = choose|j: int|
                        0 <= j < rest.len() && #[trigger] line_closes(rest, j, f, window)
                            && m.last == sample_of_line(rest[j])->0 && forall|k: int|
                            0 <= k < j ==> !#[trigger] line_closes(rest, k, f, window);
                    assert(line_closes(lines, j + 1, f, window));
                    assert forall|k: int| 0 <= k < j + 1 implies !#[trigger] line_closes(
                        lines,
                        k,
                        f,
                        window,
                    ) by {
                        if k > 0 {
                            assert(!line_closes(rest, k - 1, f, window));
                        }
                    }
                },
                None => {
                    assert forall|j: int| 0 <= j < lines.len() implies !#[trigger] line_closes(
                        lines,
                        j,
                        f,
                        window,
                    ) by {
                        if j > 0 {
                            assert(!line_closes(rest, j - 1, f, window));
                        }
                    }
                },
            }
        }
    }
}

/// A measurement over monitor lines opens at the line with the first sample
/// of all and closes at the first later line whose sample lies at least the
/// window's length of seconds after it; when no such pair of lines exists,
/// nothing is measured.
pub proof fn lemma_measure_lines(lines: Seq<Seq<char>>, window: u64)
    ensures
        measure_lines(None, lines, window) matches Some(m) ==> exists|i: int, j: int|
            #[trigger] bounds_measurement(lines, window, i, j) && m.first == sample_of_line(
                lines[i],
            )->0 && m.last == sample_of_line(lines[j])->0,
        measure_lines(None, lines, window) is None ==> forall|i: int, j: int|
            !#[trigger] bounds_measurement(lines, window, i, j),
    decreases lines.len(),
{
    if lines.len() > 0 {
        let rest = lines.drop_first();
        assert forall|k: int| 0 <= k < rest.len() implies #[trigger] rest[k] == lines[k + 1] by {}
        match sample_of_line(lines[0]) {
            None => {
                lemma_measure_lines(rest, window);
                match measure_lines(None, rest, window) {
                    Some(m) => {
                        let (i, j) = choose|i: int, j: int|
                            #[trigger] bounds_measurement(rest, window, i, j) && m.first
                                == sample_of_line(rest[i])->0 && m.last == sample_of_line(
                                rest[j],
                            )->0;
                        let f = sample_of_line(rest[i])->0;
                        assert forall|k: int| 0 <= k < i + 1 implies #[trigger] sample_of_line(
                            lines[k],
                        ) is None by {
                            if k > 0 {
                                assert(sample_of_line(rest[k - 1]) is None);
                            }
                        }
                        assert forall|k: int| i + 1 < k < j + 1 implies !#[trigger] line_closes(
                            lines,
                            k,
                            f,
                            window,
                        ) by {
                            assert(!line_closes(rest, k - 1, f, window));
                        }
                        assert(line_closes(lines, j + 1, f, window));
                        assert(bounds_measurement(lines, window, i + 1, j + 1));
                    },
                    None => {
                        assert forall|i: int, j: int|
                            !#[trigger] bounds_measurement(lines, window, i, j) by {
                            if bounds_measurement(lines, window, i, j) {
                                let f = sample_of_line(lines[i])->0;
                                assert(i > 0);
                                assert forall|k: int| 0 <= k < i - 1 implies #[trigger] sample_of_line(
                                    rest[k],
                                ) is None by {
                                    assert(sample_of_line(lines[k + 1]) is None);
                                }
                                assert forall|k: int| i - 1 < k < j - 1 implies !#[trigger] line_closes(
                                    rest,
                                    k,
                                    f,
                                    window,
                                ) by {
                                    assert(!line_closes(lines, k + 1, f, window));
                                }
                                assert(line_closes(rest, j - 1, f, window));
                                assert(bounds_measurement(rest, window, i - 1, j - 1));
                            }
                        }
                    },
                }
            },
            Some(f) => {
                lemma_measure_opened(f, rest, window);
                match measure_lines(Some(f), rest, window) {
                    Some(m) => {
                        let j = choose|j: int|
                            0 <= j < rest.len() && #[trigger] line_closes(rest, j, f, window)
                                && m.last == sample_of_line(rest[j])->0 && forall|k: int|
                                0 <= k < j ==> !#[trigger] line_closes(rest, k, f, window);
                        assert forall|k: int| 0 < k < j + 1 implies !#[trigger] line_closes(
                            lines,
                            k,
                            f,
                            window,
                        ) by {
                            assert(!line_closes(rest, k - 1, f, window));
                        }
                        assert(line_closes(lines, j + 1, f, window));
                        assert(bounds_measurement(lines, window, 0, j + 1));
                    },
                    None => {
                        assert forall|i: int, j: int|
                            !#[trigger] bounds_measurement(lines, window, i, j) by {
                            if bounds_measurement(lines, window, i, j) {
                                if i > 0 {
                                    assert(sample_of_line(lines[0]) is None);
                                }
                                assert(line_closes(rest, j - 1, f, window));
                            }
                        }
                    },
                }
            },
        }
    }
}

/// The monitor line that reports `elapsed_s` seconds and `total` packets,
/// in its shortest form: `[<elapsed_s>s] total: <total> pkts`.
pub open spec fn monitor_line(elapsed_s: nat, total: nat) -> Seq<char> {
    seq!['['] + decimal_string(elapsed_s) + seq!['s', ']', ' '] + total_marker() + decimal_string(
        total,
    ) + pkts_marker()
}

/// When no position in `[i, k)` starts with the pattern's first character
/// and the pattern occurs at `k`, the first occurrence from `i` is at `k`.
proof fn lemma_find_from_at(s: Seq<char>, pat: Seq<char>, i: int, k: int)
    requires
        0 <= i <= k,
        pat.len() > 0,
        occurs_at(s, pat, k),
        forall|j: int| i <= j < k ==> s[j] != pat[0],
    ensures
        find_from(s, pat, i) == Some(k),
    decreases k - i,
{
    if i < k {
        assert(s.subrange(i, i + pat.len())[0] == s[i]);
        assert(!occurs_at(s, pat, i));
        lemma_find_from_at(s, pat, i + 1, k);
    }
}

/// A digit string is its own trim.
proof fn lemma_trim_digits(d: Seq<char>)
    requires
        d.len() > 0,
        all_digits(d),
    ensures
        trim(d) == d,
{
    assert(is_digit(d[0]));
    assert(!is_white_space(d[0]));
    assert(trim_start(d) == d);
    assert(is_digit(d[d.len() - 1]));
    assert(!is_white_space(d.last()));
}

/// Every line in the monitor's format is read back as the sample it
/// reports.
pub proof fn lemma_monitor_line_round_trip(elapsed_s: u64, total: u64)
    ensures
        sample_of_line(monitor_line(elapsed_s as nat, total as nat)) == Some(
            TelemetrySample { elapsed_s, total_packets: total },
        ),
{
    let de = decimal_string(elapsed_s as nat);
    let dt = decimal_string(total as nat);
    crate::text::lemma_decimal_string_digits(elapsed_s as nat);
    crate::text::lemma_decimal_string_digits(total as nat);
    crate::text::lemma_parse_decimal_string(elapsed_s as nat, u64::MAX as nat);
    crate::text::lemma_parse_decimal_string(total as nat, u64::MAX as nat);
    let line = monitor_line(elapsed_s as nat, total as nat);
    let a: int = 1 + de.len() as int;
    let p: int = a + 3;
    let q: int = p + 7 + dt.len();
    assert(line.len() == q + 5);
    assert(line[0] == '[');
    assert forall|j: int| 1 <= j < a implies line[j] == de[j - 1] by {}
    assert forall|j: int| p + 7 <= j < q implies line[j] == dt[j - p - 7] by {}
    // the elapsed field
    assert(line.subrange(a, a + 2) =~= seconds_marker());
    assert forall|j: int| 1 <= j < a implies line[j] != seconds_marker()[0] by {
        assert(is_digit(de[j - 1]));
    }
    lemma_find_from_at(line, seconds_marker(), 1, a);
    assert(line.subrange(1, a) =~= de);
    lemma_trim_digits(de);
    // the packet total
    assert(line.subrange(p, p + 7) =~= total_marker());
    assert forall|j: int| 0 <= j < p implies line[j] != total_marker()[0] by {
        if 1 <= j < a {
            assert(is_digit(de[j - 1]));
        }
    }
    lemma_find_from_at(line, total_marker(), 0, p);
    assert(line.subrange(q, q + 5) =~= pkts_marker());
    assert forall|j: int| p + 7 <= j < q implies line[j] != pkts_marker()[0] by {
        assert(is_digit(dt[j - p - 7]));
    }
    lemma_find_from_at(line, pkts_marker(), p + 7, q);
    assert(line.subrange(p + 7, q) =~= dt);
}

/// A window opened by `f` closes at a sample `s` exactly when `s` lies at
/// least `window` seconds after `f`, and then measures from `f` to `s`; a
/// line without a sample, or a window not opened yet, measures nothing.
pub proof fn lemma_window_step(f: TelemetrySample, line: Seq<char>, window: u64)
    ensures
        sample_of_line(line) matches Some(s) ==> (s.elapsed_s >= f.elapsed_s + window
            ==> window_step(Some(f), line, window) == Some(Measurement { first: f, last: s })),
        sample_of_line(line) matches Some(s) ==> (s.elapsed_s < f.elapsed_s + window
            ==> window_step(Some(f), line, window) is None),
        sample_of_line(line) is None ==> window_step(Some(f), line, window) is None,
        window_step(None, line, window) is None,
        window_next(Some(f), line) == Some(f),
        window_next(None, line) == sample_of_line(line),
{
}

/// Over two monitor lines, the second closes the window opened by the first
/// exactly when it reports at least `window` seconds more, whatever the gap.
pub proof fn lemma_two_monitor_lines(e1: u64, t1: u64, e2: u64, t2: u64, window: u64)
    ensures
        measure_lines(
            None,
            seq![monitor_line(e1 as nat, t1 as nat), monitor_line(e2 as nat, t2 as nat)],
            window,
        ) == (if e2 >= e1 + window {
            Some(
                Measurement {
                    first: TelemetrySample { elapsed_s: e1, total_packets: t1 },
                    last: TelemetrySample { elapsed_s: e2, total_packets: t2 },
                },
            )
        } else {
            None
        }),
{
    lemma_monitor_line_round_trip(e1, t1);
    lemma_monitor_line_round_trip(e2, t2);
    let lines = seq![monitor_line(e1 as nat, t1 as nat), monitor_line(e2 as nat, t2 as nat)];
    let rest = lines.drop_first();
    assert(rest =~= seq![monitor_line(e2 as nat, t2 as nat)]);
    assert(rest.drop_first() =~= Seq::<Seq<char>>::empty());
    let f = TelemetrySample { elapsed_s: e1, total_packets: t1 };
    assert(measure_lines(None, lines, window) == measure_lines(Some(f), rest, window));
    assert(measure_lines(Some(f), rest.drop_first(), window) is None);
}

} // verus!
