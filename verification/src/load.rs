//! CPU load: the aggregate `cpu ` line of `/proc/stat`, the counters it
//! holds, how they move between two readings, and the load level.

use vstd::prelude::*;

use crate::text::{
    chars_of, lines, parse_i32, parses_as_i32, signed_value, split_lines, split_words,
    starts_with_seq, views, words, no_newline, lemma_lines_one, lemma_lines_two,
};

verus! {

/// How busy the CPU is.
#[derive(Debug, Clone, Copy, PartialEq, Eq, Structural)]
pub enum LoadLeve {
    Low,
    Mid,
    High,
    Ehight,
}

/// The two counters that one reading of `/proc/stat` yields: the sum of the
/// first nine counters of the `cpu ` line, and the idle plus iowait time.
#[derive(Debug, Clone, Copy, PartialEq, Eq, Structural)]
pub struct CpuSample {
    pub total: i32,
    pub idle: i32,
}

/// How the counters moved since the previous reading: all time elapsed,
/// and the part of it that was not idle.
#[derive(Debug, Clone, Copy, PartialEq, Eq, Structural)]
pub struct LoadDelta {
    pub busy: i32,
    pub total: i32,
}

/// The load reported when `/proc/stat` holds no usable `cpu ` line, or when
/// it could not be read.
pub const DEFAULT_LOAD: i8 = 50;

pub open spec fn fits_i32(x: int) -> bool {
    i32::MIN <= x <= i32::MAX
}

/// The line starts with `cpu ` (the aggregate of all CPUs).
pub open spec fn is_cpu_line(line: Seq<char>) -> bool {
    line.len() >= 4 && line.take(4) == seq!['c', 'p', 'u', ' ']
}

/// A `cpu ` line with more than nine words: the line that is read.
pub open spec fn is_sample_line(line: Seq<char>) -> bool {
    is_cpu_line(line) && words(line).len() > 9
}

/// The first line of `ls` that is a sample line.
pub open spec fn first_sample_line(ls: Seq<Seq<char>>) -> Option<Seq<char>>
    decreases ls.len(),
{
    if ls.len() == 0 {
        None
    } else if is_sample_line(ls[0]) {
        Some(ls[0])
    } else {
        first_sample_line(ls.drop_first())
    }
}

/// The line of the text of `/proc/stat` that a reading uses, if any.
pub open spec fn stat_line(stat: Seq<char>) -> Option<Seq<char>> {
    first_sample_line(lines(stat))
}

/// The sum of the counters `ws[1]` to `ws[m]`.
pub open spec fn counter_sum(ws: Seq<Seq<char>>, m: int) -> int
    decreases m,
{
    if m <= 0 {
        0
    } else {
        counter_sum(ws, m - 1) + signed_value(ws[m])
    }
}

/// The idle plus iowait time of a sample line's words.
pub open spec fn idle_sum(ws: Seq<Seq<char>>) -> int {
    signed_value(ws[3]) + signed_value(ws[4])
}

/// The words `ws[1]` to `ws[9]` parse as `i32`, every running sum of them
/// fits in an `i32`, and so does `ws[3] + ws[4]`.
pub open spec fn counters_valid(ws: Seq<Seq<char>>) -> bool {
    &&& forall|k: int| 1 <= k <= 9 ==> parses_as_i32(#[trigger] ws[k])
    &&& forall|m: int| 1 <= m <= 9 ==> fits_i32(#[trigger] counter_sum(ws, m))
    &&& fits_i32(idle_sum(ws))
}

/// The text of `/proc/stat` can be read: it has no sample line, or the
/// counters of its sample line are valid.
pub open spec fn stat_readable(stat: Seq<char>) -> bool {
    match stat_line(stat) {
        None => true,
        Some(line) => counters_valid(words(line)),
    }
}

/// The counters that the text of `/proc/stat` holds, if it has a sample line.
pub open spec fn stat_sample(stat: Seq<char>) -> Option<CpuSample> {
    match stat_line(stat) {
        None => None,
        Some(line) => Some(
            CpuSample {
                total: counter_sum(words(line), 9) as i32,
                idle: idle_sum(words(line)) as i32,
            },
        ),
    }
}

/// The differences between two readings fit in an `i32`.
pub open spec fn delta_fits(prev: CpuSample, now: CpuSample) -> bool {
    let total = now.total - prev.total;
    let idle = now.idle - prev.idle;
    fits_i32(total) && fits_i32(idle) && fits_i32(total - idle)
}

/// How the counters moved from `prev` to `now`.
pub open spec fn delta(prev: CpuSample, now: CpuSample) -> LoadDelta {
    let total = now.total - prev.total;
    let idle = now.idle - prev.idle;
    LoadDelta { busy: (total - idle) as i32, total: total as i32 }
}

/// A reading of `stat` after the reading `prev` completes without overflow.
pub open spec fn load_readable(prev: CpuSample, stat: Seq<char>) -> bool {
    &&& stat_readable(stat)
    &&& match stat_sample(stat) {
        None => true,
        Some(now) => delta_fits(prev, now),
    }
}

/// The level of a load given in percent.
pub open spec fn load_level(load: int) -> LoadLeve {
    if load < 20 {
        LoadLeve::Low
    } else if load < 40 {
        LoadLeve::Mid
    } else if load < 60 {
        LoadLeve::High
    } else {
        LoadLeve::Ehight
    }
}

/// The level of a load given in percent.
pub fn get_load_level(load: i8) -> (r: LoadLeve)
    ensures
        r == load_level(load as int),
{
    if load < 20 {
        LoadLeve::Low
    } else if load < 40 {
        LoadLeve::Mid
    } else if load < 60 {
        LoadLeve::High
    } else {
        LoadLeve::Ehight
    }
}

/// The words of the first sample line of `ls`, if any.
fn find_sample_line(ls: &Vec<Vec<char>>) -> (r: Option<Vec<Vec<char>>>)
    ensures
        match first_sample_line(views(ls@)) {
            None => r is None,
            Some(line) => r matches Some(ws) && views(ws@) == words(line),
        },
        r matches Some(ws) ==> ws.len() > 9,
{
    let prefix: Vec<char> = vec!['c', 'p', 'u', ' '];
    assert(prefix@ =~= seq!['c', 'p', 'u', ' ']);
    let mut i: usize = 0;
    assert(views(ls@).skip(0) =~= views(ls@));
    while i < ls.len()
        invariant
            i <= ls.len(),
            prefix@ == seq!['c', 'p', 'u', ' '],
            first_sample_line(views(ls@)) == first_sample_line(views(ls@).skip(i as int)),
        decreases ls.len() - i,
    {
        let ghost rest = views(ls@).skip(i as int);
        assert(rest[0] == ls@[i as int]@);
        assert(rest.drop_first() =~= views(ls@).skip(i + 1));
        if starts_with_seq(&ls[i], &prefix) {
            let ws = split_words(&ls[i]);
            if ws.len() > 9 {
                return Some(ws);
            }
        }
        i += 1;
    }
    assert(views(ls@).skip(i as int) =~= Seq::<Seq<char>>::empty());
    None
}

/// The counters of a sample line's words, where they are valid.
fn read_counters(ws: &Vec<Vec<char>>) -> (r: Option<CpuSample>)
    requires
        ws.len() > 9,
    ensures
        r is Some <==> counters_valid(views(ws@)),
        r matches Some(smp) ==> smp.total == counter_sum(views(ws@), 9) && smp.idle == idle_sum(
            views(ws@),
        ),
{
    let ghost vs = views(ws@);
    let mut acc: i32 = 0;
    let mut k: usize = 1;
    while k <= 9
        invariant
            1 <= k <= 10,
            ws.len() > 9,
            vs == views(ws@),
            acc == counter_sum(vs, k - 1),
            forall|j: int| 1 <= j < k ==> parses_as_i32(#[trigger] vs[j]),
            forall|m: int| 1 <= m < k ==> fits_i32(#[trigger] counter_sum(vs, m)),
        decreases 10 - k,
    {
        assert(vs[k as int] == ws@[k as int]@);
        let v = match parse_i32(&ws[k]) {
            Some(v) => v,
            None => {
                return None;
            },
        };
        assert(counter_sum(vs, k as int) == counter_sum(vs, k - 1) + signed_value(vs[k as int]));
        acc = match acc.checked_add(v) {
            Some(s) => s,
            None => {
                assert(!fits_i32(counter_sum(vs, k as int)));
                return None;
            },
        };
        k += 1;
    }
    assert(vs[3] == ws@[3]@);
    assert(vs[4] == ws@[4]@);
    let a = match parse_i32(&ws[3]) {
        Some(a) => a,
        None => {
            return None;
        },
    };
    let b = match parse_i32(&ws[4]) {
        Some(b) => b,
        None => {
            return None;
        },
    };
    match a.checked_add(b) {
        Some(idle) => Some(CpuSample { total: acc, idle }),
        None => None,
    }
}

/// What a reading of the text of `/proc/stat` finds.
enum Scan {
    NoSampleLine,
    Unreadable,
    Found(CpuSample),
}

/// Reads the text of `/proc/stat`.
fn scan_stat(stat: &str) -> (r: Scan)
    ensures
        r is Unreadable <==> !stat_readable(stat@),
        r is NoSampleLine <==> stat_sample(stat@) is None,
        r matches Scan::Found(smp) ==> stat_sample(stat@) == Some(smp),
{
    let cs = chars_of(stat);
    let ls = split_lines(&cs);
    match find_sample_line(&ls) {
        None => Scan::NoSampleLine,
        Some(ws) => match read_counters(&ws) {
            None => Scan::Unreadable,
            Some(smp) => Scan::Found(smp),
        },
    }
}

/// The counters of the previous reading of `/proc/stat`, from which the
/// next reading measures the load.
pub struct LoadListenerHandle {
    total: i32,
    idle: i32,
}

impl View for LoadListenerHandle {
    type V = CpuSample;

    closed spec fn view(&self) -> CpuSample {
        CpuSample { total: self.total, idle: self.idle }
    }
}

impl LoadListenerHandle {
    /// A handle that has not read anything yet: both counters are zero.
    pub fn new() -> (h: Self)
        ensures
            h@ == (CpuSample { total: 0, idle: 0 }),
    {
        LoadListenerHandle { total: 0, idle: 0 }
    }

    /// Whether `read_load` accepts `stat` now (elsewhere the daemon stops).
    pub fn can_read(&self, stat: &str) -> (r: bool)
        ensures
            r == load_readable(self@, stat@),
    {
        match scan_stat(stat) {
            Scan::NoSampleLine => true,
            Scan::Unreadable => false,
            Scan::Found(now) => {
                let total = (now.total as i64) - (self.total as i64);
                let idle = (now.idle as i64) - (self.idle as i64);
                let busy = total - idle;
                fits(total) && fits(idle) && fits(busy)
            },
        }
    }

    /// Takes a new reading from the text of `/proc/stat`: where it has a
    /// sample line, returns how the counters moved since the previous
    /// reading and keeps the new counters; elsewhere returns `None` and
    /// keeps the old ones.
    pub fn read_load(&mut self, stat: &str) -> (r: Option<LoadDelta>)
        requires
            load_readable(old(self)@, stat@),
        ensures
            match stat_sample(stat@) {
                None => r is None && final(self)@ == old(self)@,
                Some(now) => r == Some(delta(old(self)@, now)) && final(self)@ == now,
            },
    {
        match scan_stat(stat) {
            Scan::Found(now) => {
                let total = now.total - self.total;
                let idle = now.idle - self.idle;
                let busy = total - idle;
                self.total = now.total;
                self.idle = now.idle;
                Some(LoadDelta { busy, total })
            },
            _ => None,
        }
    }
}

/// Whether `x` fits in an `i32`.
fn fits(x: i64) -> (r: bool)
    ensures
        r == fits_i32(x as int),
{
    -2147483648 <= x && x <= 2147483647
}


/// The order of the load levels, from the idlest.
pub open spec fn load_rank(l: LoadLeve) -> int {
    match l {
        LoadLeve::Low => 0,
        LoadLeve::Mid => 1,
        LoadLeve::High => 2,
        LoadLeve::Ehight => 3,
    }
}

/// A higher load never gets a lower level.
pub proof fn lemma_load_level_monotone(a: int, b: int)
    requires
        a <= b,
    ensures
        load_rank(load_level(a)) <= load_rank(load_level(b)),
{
}

/// Two readings in a row measure, together, what one reading from the
/// first counters to the last would: the elapsed and the busy times of
/// consecutive deltas add up.
pub proof fn lemma_deltas_add_up(s0: CpuSample, s1: CpuSample, s2: CpuSample)
    requires
        delta_fits(s0, s1),
        delta_fits(s1, s2),
    ensures
        delta(s0, s1).total + delta(s1, s2).total == s2.total - s0.total,
        delta(s0, s1).busy + delta(s1, s2).busy == (s2.total - s0.total) - (s2.idle - s0.idle),
{
}

/// The first reading measures from zero: its delta is the counters
/// themselves.
pub proof fn lemma_first_delta_is_sample(now: CpuSample)
    requires
        delta_fits(CpuSample { total: 0, idle: 0 }, now),
    ensures
        delta(CpuSample { total: 0, idle: 0 }, now) == (LoadDelta {
            busy: (now.total - now.idle) as i32,
            total: now.total,
        }),
{
}


/// A `cpu ` line with more than nine words is read, whatever its length:
/// its counters are the sum of words 1 to 9 and word 3 plus word 4.
pub proof fn lemma_cpu_line_is_read(l: Seq<char>)
    requires
        l.len() >= 4,
        l[0] == 'c' && l[1] == 'p' && l[2] == 'u' && l[3] == ' ',
        no_newline(l),
        words(l).len() > 9,
        forall|k: int| 1 <= k <= 9 ==> parses_as_i32(#[trigger] words(l)[k]),
        forall|m: int| 1 <= m <= 9 ==> fits_i32(#[trigger] counter_sum(words(l), m)),
        fits_i32(signed_value(words(l)[3]) + signed_value(words(l)[4])),
    ensures
        stat_readable(l.push('\n')),
        stat_sample(l.push('\n')) == Some(
            CpuSample {
                total: (signed_value(words(l)[1]) + signed_value(words(l)[2]) + signed_value(
                    words(l)[3],
                ) + signed_value(words(l)[4]) + signed_value(words(l)[5]) + signed_value(
                    words(l)[6],
                ) + signed_value(words(l)[7]) + signed_value(words(l)[8]) + signed_value(
                    words(l)[9],
                )) as i32,
                idle: (signed_value(words(l)[3]) + signed_value(words(l)[4])) as i32,
            },
        ),
{
    lemma_lines_one(l);
    assert(l.take(4) =~= seq!['c', 'p', 'u', ' ']);
    assert(is_sample_line(l));
    let ls = lines(l.push('\n'));
    assert(ls[0] == l);
    assert(first_sample_line(ls) == Some(l));
    let ws = words(l);
    assert(counter_sum(ws, 0) == 0);
    assert(counter_sum(ws, 1) == signed_value(ws[1]));
    assert(counter_sum(ws, 2) == counter_sum(ws, 1) + signed_value(ws[2]));
    assert(counter_sum(ws, 3) == counter_sum(ws, 2) + signed_value(ws[3]));
    assert(counter_sum(ws, 4) == counter_sum(ws, 3) + signed_value(ws[4]));
    assert(counter_sum(ws, 5) == counter_sum(ws, 4) + signed_value(ws[5]));
    assert(counter_sum(ws, 6) == counter_sum(ws, 5) + signed_value(ws[6]));
    assert(counter_sum(ws, 7) == counter_sum(ws, 6) + signed_value(ws[7]));
    assert(counter_sum(ws, 8) == counter_sum(ws, 7) + signed_value(ws[8]));
    assert(counter_sum(ws, 9) == counter_sum(ws, 8) + signed_value(ws[9]));
}

/// A line that is not a `cpu ` line with more than nine words is passed
/// over: the reading is that of the lines after it.
pub proof fn lemma_other_line_is_skipped(l0: Seq<char>, l: Seq<char>)
    requires
        no_newline(l0),
        no_newline(l),
        !(l0.len() >= 4 && l0[0] == 'c' && l0[1] == 'p' && l0[2] == 'u' && l0[3] == ' ' && words(
            l0,
        ).len() > 9),
    ensures
        stat_sample(l0.push('\n') + l.push('\n')) == stat_sample(l.push('\n')),
        stat_readable(l0.push('\n') + l.push('\n')) == stat_readable(l.push('\n')),
{
    lemma_lines_two(l0, l);
    lemma_lines_one(l);
    let ls = lines(l0.push('\n') + l.push('\n'));
    if is_sample_line(l0) {
        assert(l0.take(4)[0] == l0[0] && l0.take(4)[1] == l0[1]);
        assert(l0.take(4)[2] == l0[2] && l0.take(4)[3] == l0[3]);
    }
    assert(!is_sample_line(ls[0]));
    assert(ls.drop_first() =~= lines(l.push('\n')));
}

/// The first `cpu ` line with more than nine words is the one read, whatever
/// follows it.
pub proof fn lemma_first_cpu_line_wins(l0: Seq<char>, l: Seq<char>)
    requires
        l0.len() >= 4,
        l0[0] == 'c' && l0[1] == 'p' && l0[2] == 'u' && l0[3] == ' ',
        no_newline(l0),
        no_newline(l),
        words(l0).len() > 9,
    ensures
        stat_sample(l0.push('\n') + l.push('\n')) == stat_sample(l0.push('\n')),
        stat_readable(l0.push('\n') + l.push('\n')) == stat_readable(l0.push('\n')),
{
    lemma_lines_two(l0, l);
    lemma_lines_one(l0);
    assert(l0.take(4) =~= seq!['c', 'p', 'u', ' ']);
    assert(is_sample_line(l0));
    assert(lines(l0.push('\n') + l.push('\n'))[0] == l0);
    assert(lines(l0.push('\n'))[0] == l0);
}

} // verus!
