use vstd::prelude::*;
use crate::git::Git;
use crate::text::{
    all_digits, digit_val, digits_val, digit_run_start, eq_ci, eq_ignore_case, contains_seq,
    contains_str, find_char, find_idx, find_space, find_sub, find_sub_idx, is_digit,
    is_digit_char, lemma_digit_run_start, lemma_digits_val_prefix_le, parse_u32_range,
    parse_u32_spec, parse_u32_str, s_len, skip_spaces, space_idx, trim, trim_spec,
    trim_start_idx,
};

verus! {

/// The phase of a clone that a progress line reports.
#[derive(Clone, Copy, Debug, PartialEq, Eq, Structural)]
pub enum Stage {
    Counting,
    Compressing,
    Receiving,
    Resolving,
}

/// One decoded progress event. `progress` is the overall percentage, already
/// mapped into the stage's band; `received_bytes` is a whole byte count.
#[derive(Clone, Debug)]
pub struct CloneProgress {
    pub stage: Stage,
    pub progress: u32,
    pub received_objects: Option<u32>,
    pub total_objects: Option<u32>,
    pub received_bytes: Option<u64>,
    pub speed: Option<String>,
}

/// The raw stage-local percentage of a line: the run of digits immediately
/// before the first `%`, when there is one and its value fits in `u32`.
pub open spec fn raw_percent_spec(l: Seq<char>) -> Option<int> {
    let p = find_idx(l, '%');
    if p >= l.len() {
        None
    } else {
        let st = digit_run_start(l, p);
        let run = l.subrange(st, p);
        if run.len() > 0 && digits_val(run) <= u32::MAX {
            Some(digits_val(run))
        } else {
            None
        }
    }
}

/// The run of digits just before the first `%` of `line`, as a number.
pub fn raw_percent(line: &str) -> (r: Option<u32>)
    ensures
        match r {
            Some(v) => raw_percent_spec(line@) == Some(v as int),
            None => raw_percent_spec(line@) is None,
        },
{
    let n = s_len(line);
    match find_char(line, '%') {
        None => None,
        Some(p) => {
            proof {
                lemma_digit_run_start(line@, p as int);
            }
            let ghost drs = digit_run_start(line@, p as int);
            let mut st = p;
            while st > 0 && is_digit_char(line, st - 1)
                invariant
                    0 <= st <= p < line@.len(),
                    forall|j: int| st <= j < p ==> is_digit(line@[j]),
                    0 <= drs <= st,
                    drs == digit_run_start(line@, p as int),
                    forall|j: int| drs <= j < p ==> is_digit(line@[j]),
                    drs > 0 ==> !is_digit(line@[drs - 1]),
                decreases st,
            {
                proof {
                    if drs == st {
                        assert(!is_digit(line@[drs - 1]));
                        assert(false);
                    }
                }
                st = st - 1;
            }
            proof {
                if drs < st {
                    assert(is_digit(line@[st - 1]));
                    assert(false);
                }
            }
            let ghost run = line@.subrange(st as int, p as int);
            proof {
                assert(all_digits(run));
            }
            match parse_u32_range(line, st, p) {
                Some(v) => Some(v),
                None => None,
            }
        },
    }
}

/// The text between the first `(` and the first `)`, when both occur in
/// that order.
pub open spec fn paren_inner(l: Seq<char>) -> Option<Seq<char>> {
    let ps = find_idx(l, '(');
    let pe = find_idx(l, ')');
    if ps < l.len() && pe < l.len() && ps + 1 <= pe {
        Some(l.subrange(ps + 1, pe))
    } else {
        None
    }
}

/// The two halves of a `received/total` object count, when the
/// parenthesized text holds exactly one `/`.
pub open spec fn count_parts(l: Seq<char>) -> Option<(Seq<char>, Seq<char>)> {
    match paren_inner(l) {
        None => None,
        Some(inner) => {
            let k = find_idx(inner, '/');
            if k < inner.len() && find_idx(inner.skip(k + 1), '/') == inner.skip(k + 1).len() {
                Some((inner.take(k), inner.skip(k + 1)))
            } else {
                None
            }
        },
    }
}

/// The received-object count of a receiving line.
pub open spec fn received_spec(l: Seq<char>) -> Option<int> {
    match count_parts(l) {
        Some(p) => parse_u32_spec(trim_spec(p.0)),
        None => None,
    }
}

/// The total-object count of a receiving line.
pub open spec fn total_spec(l: Seq<char>) -> Option<int> {
    match count_parts(l) {
        Some(p) => parse_u32_spec(trim_spec(p.1)),
        None => None,
    }
}

/// The text after the first `),`, when one occurs.
pub open spec fn after_close(l: Seq<char>) -> Option<Seq<char>> {
    let k = find_sub_idx(l, "),"@);
    if k < l.len() {
        Some(l.skip(k + 2))
    } else {
        None
    }
}

/// The byte count of a receiving line: the size text between `),` and the
/// first `|`, parsed as a number with a unit.
pub open spec fn bytes_spec(l: Seq<char>) -> Option<int> {
    match after_close(l) {
        Some(a) => parse_size_spec(a.take(find_idx(a, '|'))),
        None => None,
    }
}

/// The throughput text of a receiving line: between the first and second
/// `|` after `),`, trimmed, passed through verbatim.
pub open spec fn speed_spec(l: Seq<char>) -> Option<Seq<char>> {
    match after_close(l) {
        Some(a) => {
            let k = find_idx(a, '|');
            if k < a.len() {
                let rest = a.skip(k + 1);
                Some(trim_spec(rest.take(find_idx(rest, '|'))))
            } else {
                None
            }
        },
        None => None,
    }
}

/// `⌊mult · 0.d₁d₂…dₖ⌋` for a string of fraction digits: the whole-byte part
/// contributed by the digits after the decimal point.
pub open spec fn frac_floor(s: Seq<char>, mult: int) -> int
    decreases s.len(),
{
    if s.len() == 0 {
        0
    } else {
        (digit_val(s[0]) * mult + frac_floor(s.skip(1), mult)) / 10
    }
}

pub proof fn lemma_frac_floor_bounds(s: Seq<char>, mult: int)
    requires
        all_digits(s),
        mult >= 0,
    ensures
        0 <= frac_floor(s, mult) <= mult,
    decreases s.len(),
{
    if s.len() > 0 {
        assert(all_digits(s.skip(1))) by {
            assert(forall|j: int| 0 <= j < s.skip(1).len() ==> s.skip(1)[j] == s[j + 1]);
        }
        lemma_frac_floor_bounds(s.skip(1), mult);
        let d = digit_val(s[0]);
        assert(0 <= d <= 9);
        assert(d * mult <= 9 * mult) by (nonlinear_arith)
            requires
                0 <= d <= 9,
                mult >= 0,
        ;
        assert(0 <= (d * mult + frac_floor(s.skip(1), mult)) / 10 <= mult) by (nonlinear_arith)
            requires
                0 <= d * mult <= 9 * mult,
                0 <= frac_floor(s.skip(1), mult) <= mult,
                mult >= 0,
        ;
    }
}

/// The byte multiplier of a size unit, ASCII case ignored; unknown units
/// count bytes directly.
pub open spec fn mult_of(u: Seq<char>) -> int {
    if eq_ci(u, "B"@) || eq_ci(u, "BYTES"@) {
        1
    } else if eq_ci(u, "KIB"@) || eq_ci(u, "KB"@) {
        1024
    } else if eq_ci(u, "MIB"@) || eq_ci(u, "MB"@) {
        1048576
    } else if eq_ci(u, "GIB"@) || eq_ci(u, "GB"@) {
        1073741824
    } else {
        1
    }
}

/// The byte multiplier of a size unit.
pub fn unit_multiplier(u: &str) -> (m: u64)
    ensures
        m == mult_of(u@),
        1 <= m <= 1073741824,
{
    if eq_ignore_case(u, "B") || eq_ignore_case(u, "BYTES") {
        1
    } else if eq_ignore_case(u, "KIB") || eq_ignore_case(u, "KB") {
        1024
    } else if eq_ignore_case(u, "MIB") || eq_ignore_case(u, "MB") {
        1048576
    } else if eq_ignore_case(u, "GIB") || eq_ignore_case(u, "GB") {
        1073741824
    } else {
        1
    }
}

/// Whole bytes denoted by a numeric token (digits with at most one decimal
/// point) times a unit multiplier, floored; `None` when the token is not
/// such a number or the count does not fit in 64 bits.
pub open spec fn size_value_spec(tok: Seq<char>, mult: int) -> Option<int> {
    let k = find_idx(tok, '.');
    let ip = tok.take(k);
    let fp = if k < tok.len() {
        tok.skip(k + 1)
    } else {
        Seq::<char>::empty()
    };
    if ip.len() + fp.len() > 0 && all_digits(ip) && all_digits(fp) {
        let v = digits_val(ip) * mult + frac_floor(fp, mult);
        if v <= u64::MAX {
            Some(v)
        } else {
            None
        }
    } else {
        None
    }
}

/// Byte count of a size string such as `"1.5 MiB"`: first whitespace-
/// separated token is the number, second (if any) the unit; the result is
/// the exact product floored to whole bytes.
pub open spec fn parse_size_spec(s: Seq<char>) -> Option<int> {
    let t = trim_spec(s);
    if t.len() == 0 {
        None
    } else {
        let k1 = space_idx(t);
        let tok1 = t.take(k1);
        let rest = t.skip(k1);
        let rest2 = rest.skip(trim_start_idx(rest));
        let tok2 = rest2.take(space_idx(rest2));
        let mult = if tok2.len() == 0 {
            1
        } else {
            mult_of(tok2)
        };
        size_value_spec(tok1, mult)
    }
}

/// A line reporting the receiving stage.
pub open spec fn marks_receiving(l: Seq<char>) -> bool {
    contains_seq(l, "Receiving objects:"@)
}

/// A line reporting the delta-resolution stage.
pub open spec fn marks_resolving(l: Seq<char>) -> bool {
    contains_seq(l, "Resolving deltas:"@)
}

/// A line reporting the counting stage.
pub open spec fn marks_counting(l: Seq<char>) -> bool {
    contains_seq(l, "Counting objects:"@) || contains_seq(l, "Enumerating objects:"@)
}

/// A line reporting the compression stage.
pub open spec fn marks_compressing(l: Seq<char>) -> bool {
    contains_seq(l, "Compressing objects:"@)
}

/// Overall percentage of the counting stage: fixed.
pub open spec fn counting_band() -> int {
    5
}

/// Overall percentage of the compression stage for raw percentage `p`.
pub open spec fn compressing_band(p: int) -> int {
    5 + p * 5 / 100
}

/// Overall percentage of the receiving stage for raw percentage `p`.
pub open spec fn receiving_band(p: int) -> int {
    10 + p * 50 / 100
}

/// Overall percentage of the delta-resolution stage for raw percentage `p`.
pub open spec fn resolving_band(p: int) -> int {
    60 + p * 30 / 100
}

/// Progress percentages are monotonically non-decreasing across the fixed
/// stage ordering Counting (5) → Compressing ([5, 10]) → Receiving
/// ([10, 60]) → Resolving ([60, 90]): every stage's band starts where the
/// previous one ends, each mapping is monotone in its raw stage-local
/// percentage, and the stage defaults (8 for compressing, 60 for
/// resolving) lie inside their bands. So any transcript whose raw
/// percentages lie in [0, 100] and whose stages arrive in that order
/// yields non-decreasing overall percentages.
pub proof fn lemma_progress_bands_monotone(p: int, q: int)
    requires
        0 <= p <= 100,
        0 <= q <= 100,
    ensures
        p <= q ==> compressing_band(p) <= compressing_band(q),
        p <= q ==> receiving_band(p) <= receiving_band(q),
        p <= q ==> resolving_band(p) <= resolving_band(q),
        counting_band() <= compressing_band(p) <= 10,
        compressing_band(100) <= receiving_band(p) <= 60,
        receiving_band(100) <= resolving_band(p) <= 90,
        counting_band() <= 8 <= 10,
        resolving_band(0) == 60,
{
}

/// A trimmed line that the decoder turns into an event.
pub open spec fn is_progress_line(t: Seq<char>) -> bool {
    marks_receiving(t) || marks_resolving(t) || marks_counting(t) || marks_compressing(t)
}

/// Position of a progress line's stage in the fixed clone ordering:
/// counting, compressing, receiving, resolving. Ties follow the
/// decoder's own classification precedence.
pub open spec fn stage_rank(t: Seq<char>) -> int {
    if marks_receiving(t) {
        2
    } else if marks_resolving(t) {
        3
    } else if marks_counting(t) {
        0
    } else {
        1
    }
}

/// The overall percentage the decoder reports for a progress line: the
/// `progress` field of its event.
pub open spec fn overall_percent(t: Seq<char>) -> int {
    if marks_receiving(t) {
        match raw_percent_spec(t) {
            Some(p) => receiving_band(p),
            None => 0,
        }
    } else if marks_resolving(t) {
        match raw_percent_spec(t) {
            Some(p) => resolving_band(p),
            None => 60,
        }
    } else if marks_counting(t) {
        counting_band()
    } else {
        match raw_percent_spec(t) {
            Some(p) => compressing_band(p),
            None => 8,
        }
    }
}

/// Across one well-formed clone transcript the decoded percentages never
/// decrease: for any two progress lines whose stages respect the fixed
/// Counting → Compressing → Receiving → Resolving ordering, whose
/// compressing, receiving and resolving lines carry raw percentages in
/// [0, 100], and whose raw percentages do not decrease within a stage,
/// the later line's overall percentage is at least the earlier one's.
/// Applied to each consecutive pair of decoded events, this is the
/// monotonicity of a transcript's progress stream.
pub proof fn lemma_transcript_monotone(a: Seq<char>, b: Seq<char>)
    requires
        is_progress_line(a),
        is_progress_line(b),
        stage_rank(a) <= stage_rank(b),
        stage_rank(a) != 0 ==> (raw_percent_spec(a) matches Some(p) && 0 <= p <= 100),
        stage_rank(b) != 0 ==> (raw_percent_spec(b) matches Some(p) && 0 <= p <= 100),
        stage_rank(a) == stage_rank(b) && stage_rank(a) != 0
            ==> raw_percent_spec(a)->Some_0 <= raw_percent_spec(b)->Some_0,
    ensures
        overall_percent(a) <= overall_percent(b),
{
}

/// The event decoded from a counting line: fixed percent, no other fields.
pub open spec fn is_counting_event(ev: CloneProgress) -> bool {
    ev.stage == Stage::Counting && ev.progress == counting_band() && ev.received_objects is None
        && ev.total_objects is None && ev.received_bytes is None && ev.speed is None
}

/// The event decoded from a compressing line: the raw percent mapped into
/// the [5, 10] band, 8 when the line carries no percent.
pub open spec fn is_compressing_event(l: Seq<char>, ev: CloneProgress) -> bool {
    ev.stage == Stage::Compressing && ev.progress == (match raw_percent_spec(l) {
        Some(p) => compressing_band(p),
        None => 8,
    }) && ev.received_objects is None && ev.total_objects is None && ev.received_bytes is None
        && ev.speed is None
}

/// The event decoded from a resolving line: the raw percent mapped into
/// the [60, 90] band, 60 when the line carries no percent.
pub open spec fn is_resolving_event(l: Seq<char>, ev: CloneProgress) -> bool {
    ev.stage == Stage::Resolving && ev.progress == (match raw_percent_spec(l) {
        Some(p) => resolving_band(p),
        None => 60,
    }) && ev.received_objects is None && ev.total_objects is None && ev.received_bytes is None
        && ev.speed is None
}

/// The event decoded from a receiving line: the raw percent mapped into
/// the [10, 60] band (0 when absent), the object counts from the first
/// parenthesized `received/total`, the byte count and throughput from the
/// text after `),`.
pub open spec fn is_receiving_event(l: Seq<char>, ev: CloneProgress) -> bool {
    ev.stage == Stage::Receiving && ev.progress == (match raw_percent_spec(l) {
        Some(p) => receiving_band(p),
        None => 0,
    }) && (match ev.received_objects {
        Some(v) => received_spec(l) == Some(v as int),
        None => received_spec(l) is None,
    }) && (match ev.total_objects {
        Some(v) => total_spec(l) == Some(v as int),
        None => total_spec(l) is None,
    }) && (match ev.received_bytes {
        Some(b) => bytes_spec(l) == Some(b as int),
        None => bytes_spec(l) is None,
    }) && (match ev.speed {
        Some(sp) => speed_spec(l) == Some(sp@),
        None => speed_spec(l) is None,
    })
}

impl Git {
    /// Decode a receiving-stage line into its event.
    #[verifier::loop_isolation(false)]
    pub fn parse_receiving_objects(line: &str) -> (r: Option<CloneProgress>)
        ensures
            r matches Some(ev) && is_receiving_event(line@, ev),
    {
        let n = s_len(line);
        let progress: u32 = match raw_percent(line) {
            Some(p) => {
                let v: u64 = 10 + (p as u64) * 50 / 100;
                v as u32
            },
            None => 0,
        };
        let mut received: Option<u32> = None;
        let mut total: Option<u32> = None;
        if let Some(ps) = find_char(line, '(') {
            if let Some(pe) = find_char(line, ')') {
                if ps + 1 <= pe {
                    let inner = line.substring_char(ps + 1, pe);
                    assert(paren_inner(line@) == Some(inner@));
                    if let Some(k) = find_char(inner, '/') {
                        let rest = inner.substring_char(k + 1, s_len(inner));
                        proof {
                            assert(rest@ =~= inner@.skip(k + 1));
                        }
                        if find_char(rest, '/').is_none() {
                            let left = inner.substring_char(0, k);
                            proof {
                                assert(left@ =~= inner@.take(k as int));
                            }
                            received = parse_u32_str(trim(left));
                            total = parse_u32_str(trim(rest));
                        }
                    }
                }
            }
        }
        let mut bytes: Option<u64> = None;
        let mut speed: Option<String> = None;
        proof {
            reveal_strlit("),");
        }
        if let Some(ci) = find_sub(line, "),") {
            let after = line.substring_char(ci + 2, n);
            proof {
                assert(after@ =~= line@.skip(ci + 2));
            }
            let alen = s_len(after);
            let ak = match find_char(after, '|') {
                Some(i) => i,
                None => alen,
            };
            let size_str = after.substring_char(0, ak);
            proof {
                assert(size_str@ =~= after@.take(find_idx(after@, '|')));
            }
            bytes = Git::parse_size_to_bytes(size_str);
            if ak < alen {
                let rest = after.substring_char(ak + 1, alen);
                proof {
                    assert(rest@ =~= after@.skip(ak + 1));
                }
                let k2 = match find_char(rest, '|') {
                    Some(i) => i,
                    None => s_len(rest),
                };
                let seg = rest.substring_char(0, k2);
                proof {
                    assert(seg@ =~= rest@.take(find_idx(rest@, '|')));
                }
                speed = Some(trim(seg).to_owned());
            }
        }
        Some(
            CloneProgress {
                stage: Stage::Receiving,
                progress,
                received_objects: received,
                total_objects: total,
                received_bytes: bytes,
                speed,
            },
        )
    }

    /// Decode a delta-resolution line into its event.
    pub fn parse_resolving_deltas(line: &str) -> (r: Option<CloneProgress>)
        ensures
            r matches Some(ev) && is_resolving_event(line@, ev),
    {
        let progress: u32 = match raw_percent(line) {
            Some(p) => {
                let v: u64 = 60 + (p as u64) * 30 / 100;
                v as u32
            },
            None => 60,
        };
        Some(
            CloneProgress {
                stage: Stage::Resolving,
                progress,
                received_objects: None,
                total_objects: None,
                received_bytes: None,
                speed: None,
            },
        )
    }

    /// Decode a compression line into its event.
    pub fn parse_compressing_objects(line: &str) -> (r: Option<CloneProgress>)
        ensures
            r matches Some(ev) && is_compressing_event(line@, ev),
    {
        let progress: u32 = match raw_percent(line) {
            Some(p) => {
                let v: u64 = 5 + (p as u64) * 5 / 100;
                v as u32
            },
            None => 8,
        };
        Some(
            CloneProgress {
                stage: Stage::Compressing,
                progress,
                received_objects: None,
                total_objects: None,
                received_bytes: None,
                speed: None,
            },
        )
    }

    /// Classify one diagnostic line of a clone and decode its event, if it
    /// reports a stage: markers are literal, case-sensitive, and tested in
    /// the receiving, resolving, counting, compressing order.
    pub fn parse_git_progress(line: &str) -> (r: Option<CloneProgress>)
        ensures
            ({
                let t = trim_spec(line@);
                &&& marks_receiving(t) ==> (r matches Some(ev) && is_receiving_event(t, ev))
                &&& !marks_receiving(t) && marks_resolving(t) ==> (r matches Some(ev)
                    && is_resolving_event(t, ev))
                &&& !marks_receiving(t) && !marks_resolving(t) && marks_counting(t) ==> (
                r matches Some(ev) && is_counting_event(ev))
                &&& !marks_receiving(t) && !marks_resolving(t) && !marks_counting(t)
                    && marks_compressing(t) ==> (r matches Some(ev) && is_compressing_event(t, ev))
                &&& !marks_receiving(t) && !marks_resolving(t) && !marks_counting(t)
                    && !marks_compressing(t) ==> r is None
                &&& is_progress_line(t) ==> (r matches Some(ev) && ev.progress == overall_percent(
                    t,
                ))
            }),
    {
        let t = trim(line);
        if contains_str(t, "Receiving objects:") {
            Git::parse_receiving_objects(t)
        } else if contains_str(t, "Resolving deltas:") {
            Git::parse_resolving_deltas(t)
        } else if contains_str(t, "Counting objects:") || contains_str(t, "Enumerating objects:") {
            Some(
                CloneProgress {
                    stage: Stage::Counting,
                    progress: 5,
                    received_objects: None,
                    total_objects: None,
                    received_bytes: None,
                    speed: None,
                },
            )
        } else if contains_str(t, "Compressing objects:") {
            Git::parse_compressing_objects(t)
        } else {
            None
        }
    }

    /// Whole bytes denoted by a numeric token times the unit multiplier.
    #[verifier::loop_isolation(false)]
    pub fn size_value(tok: &str, mult: u64) -> (r: Option<u64>)
        requires
            1 <= mult <= 1073741824,
        ensures
            match r {
                Some(v) => size_value_spec(tok@, mult as int) == Some(v as int),
                None => size_value_spec(tok@, mult as int) is None,
            },
    {
        let n = s_len(tok);
        let k = match find_char(tok, '.') {
            Some(i) => i,
            None => n,
        };
        proof {
            assert(k as int == find_idx(tok@, '.'));
        }
        let ghost ip = tok@.take(k as int);
        let ghost fp = if (k as int) < tok@.len() {
            tok@.skip(k + 1)
        } else {
            Seq::<char>::empty()
        };
        let fp_len: usize = if k < n {
            n - k - 1
        } else {
            0
        };
        if k == 0 && fp_len == 0 {
            return None;
        }
        // integer part
        let mut v1: u64 = 0;
        let mut i: usize = 0;
        while i < k
            invariant
                0 <= i <= k <= n,
                n == tok@.len(),
                ip == tok@.take(k as int),
                fp == if (k as int) < tok@.len() {
                    tok@.skip(k + 1)
                } else {
                    Seq::<char>::empty()
                },
                all_digits(ip.take(i as int)),
                v1 == digits_val(ip.take(i as int)),
                1 <= mult <= 1073741824,
            decreases k - i,
        {
            if !is_digit_char(tok, i) {
                assert(ip[i as int] == tok@[i as int]);
                assert(!all_digits(ip));
                return None;
            }
            let d = (tok.get_char(i) as u32 - 48) as u64;
            proof {
                assert(ip.take(i + 1).drop_last() =~= ip.take(i as int));
                assert(ip.take(i + 1).last() == tok@[i as int]);
            }
            let next: u128 = v1 as u128 * 10 + d as u128;
            if next > 0xffff_ffff_ffff_ffff {
                proof {
                    if all_digits(ip) && all_digits(fp) {
                        lemma_digits_val_prefix_le(ip, i + 1);
                        lemma_frac_floor_bounds(fp, mult as int);
                        assert(digits_val(ip) * mult >= digits_val(ip)) by (nonlinear_arith)
                            requires
                                digits_val(ip) >= 0,
                                mult >= 1,
                        ;
                    }
                }
                return None;
            }
            v1 = (next) as u64;
            i = i + 1;
        }
        proof {
            assert(ip.take(k as int) =~= ip);
        }
        // fraction part, processed from the last digit backward
        let mut x: u64 = 0;
        proof {
            if fp_len > 0 {
                assert(fp.skip(fp_len as int) =~= Seq::<char>::empty());
            }
        }
        let mut j: usize = fp_len;
        while j > 0
            invariant
                0 <= j <= fp_len,
                n == tok@.len(),
                k <= n,
                (k as int) < tok@.len() ==> fp == tok@.skip(k + 1),
                (k as int) >= tok@.len() ==> fp == Seq::<char>::empty(),
                fp_len == fp.len(),
                fp_len > 0 ==> k < n,
                all_digits(fp.skip(j as int)),
                x == frac_floor(fp.skip(j as int), mult as int),
                0 <= x <= mult,
                1 <= mult <= 1073741824,
            decreases j,
        {
            let c_idx = k + j;
            assert(fp[j - 1] == tok@[c_idx as int]);
            if !is_digit_char(tok, c_idx) {
                assert(!all_digits(fp));
                return None;
            }
            proof {
                assert forall|q: int| 0 <= q < fp.skip(j - 1).len() implies is_digit(
                    #[trigger] fp.skip(j - 1)[q],
                ) by {
                    assert(fp.skip(j - 1)[q] == fp[j - 1 + q]);
                    if q > 0 {
                        assert(fp.skip(j as int)[q - 1] == fp[j + q - 1]);
                        assert(is_digit(fp.skip(j as int)[q - 1]));
                    }
                }
            }
            let d = (tok.get_char(c_idx) as u32 - 48) as u64;
            assert(d * mult <= 9 * 1073741824) by (nonlinear_arith)
                requires
                    0 <= d <= 9,
                    1 <= mult <= 1073741824,
            ;
            let num = d * mult + x;
            let x2 = num / 10;
            proof {
                assert(fp.skip(j - 1).skip(1) =~= fp.skip(j as int));
                assert(fp.skip(j - 1)[0] == fp[j - 1]);
                assert(x2 == frac_floor(fp.skip(j - 1), mult as int));
                assert(d * mult + x <= 10 * mult) by (nonlinear_arith)
                    requires
                        0 <= d <= 9,
                        0 <= x <= mult,
                        mult >= 1,
                ;
                assert(x2 <= mult) by (nonlinear_arith)
                    requires
                        0 <= num <= 10 * mult,
                        x2 == num / 10,
                        mult >= 1,
                ;
            }
            x = x2;
            j = j - 1;
        }
        proof {
            assert(fp.skip(0) =~= fp);
        }
        // combine
        assert(v1 as u128 * mult as u128 <= 0xffff_ffff_ffff_ffff as u128 * 1073741824) by (
        nonlinear_arith)
            requires
                v1 <= 0xffff_ffff_ffff_ffff,
                1 <= mult <= 1073741824,
        ;
        let prod: u128 = v1 as u128 * mult as u128;
        let tot: u128 = prod + x as u128;
        if tot > 0xffff_ffff_ffff_ffff {
            return None;
        }
        Some(tot as u64)
    }

    /// Byte count of a size string such as `"1.5 MiB"` or `"200 B"`.
    pub fn parse_size_to_bytes(size_str: &str) -> (r: Option<u64>)
        ensures
            match r {
                Some(v) => parse_size_spec(size_str@) == Some(v as int),
                None => parse_size_spec(size_str@) is None,
            },
    {
        let t = trim(size_str);
        let n = s_len(t);
        if n == 0 {
            return None;
        }
        let k1 = find_space(t);
        let tok1 = t.substring_char(0, k1);
        let rest = t.substring_char(k1, n);
        let rest2 = skip_spaces(rest);
        let k2 = find_space(rest2);
        let tok2 = rest2.substring_char(0, k2);
        let mult: u64 = if s_len(tok2) == 0 {
            1
        } else {
            unit_multiplier(tok2)
        };
        proof {
            let t0 = trim_spec(size_str@);
            assert(tok1@ =~= t0.take(space_idx(t0)));
            assert(rest@ =~= t0.skip(space_idx(t0)));
            let r0 = t0.skip(space_idx(t0));
            assert(rest2@ =~= r0.skip(trim_start_idx(r0)));
            assert(tok2@ =~= r0.skip(trim_start_idx(r0)).take(
                space_idx(r0.skip(trim_start_idx(r0))),
            ));
        }
        Git::size_value(tok1, mult)
    }
}

} // verus!
