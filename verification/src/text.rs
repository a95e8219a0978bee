use vstd::prelude::*;

verus! {

/// ASCII decimal digit.
pub open spec fn is_digit(c: char) -> bool {
    48 <= c as u32 && c as u32 <= 57
}

/// Numeric value of an ASCII digit.
pub open spec fn digit_val(c: char) -> int {
    c as u32 - 48
}

/// The whitespace the decoder and the tag reader strip from line ends.
pub open spec fn is_space(c: char) -> bool {
    c == ' ' || c == '\t' || c == '\r' || c == '\n'
}

/// ASCII lower-case code point of a character; other characters unchanged.
pub open spec fn lower_code(c: char) -> int {
    if 65 <= c as u32 && c as u32 <= 90 {
        c as u32 + 32
    } else {
        c as u32 as int
    }
}

/// Index of the first occurrence of `c` in `s`, or `s.len()` if absent.
pub open spec fn find_idx(s: Seq<char>, c: char) -> int
    decreases s.len(),
{
    if s.len() == 0 {
        0
    } else if s[0] == c {
        0
    } else {
        1 + find_idx(s.skip(1), c)
    }
}

pub proof fn lemma_find_idx(s: Seq<char>, c: char)
    ensures
        0 <= find_idx(s, c) <= s.len(),
        find_idx(s, c) < s.len() ==> s[find_idx(s, c)] == c,
        forall|j: int| 0 <= j < find_idx(s, c) ==> s[j] != c,
    decreases s.len(),
{
    if s.len() == 0 {
    } else if s[0] == c {
    } else {
        lemma_find_idx(s.skip(1), c);
        assert forall|j: int| 0 <= j < find_idx(s, c) implies s[j] != c by {
            if j > 0 {
                assert(s.skip(1)[j - 1] == s[j]);
            }
        }
    }
}

/// First position of `c` in `s`, if any.
pub fn find_char(s: &str, c: char) -> (r: Option<usize>)
    ensures
        match r {
            Some(i) => i == find_idx(s@, c) && i < s@.len(),
            None => find_idx(s@, c) == s@.len(),
        },
{
    proof {
        lemma_find_idx(s@, c);
    }
    let n = s.unicode_len();
    let mut i: usize = 0;
    while i < n
        invariant
            0 <= i <= n,
            n == s@.len(),
            forall|j: int| 0 <= j < i ==> s@[j] != c,
            0 <= find_idx(s@, c) <= s@.len(),
            find_idx(s@, c) < s@.len() ==> s@[find_idx(s@, c)] == c,
            forall|j: int| 0 <= j < find_idx(s@, c) ==> s@[j] != c,
        decreases n - i,
    {
        if s.get_char(i) == c {
            return Some(i);
        }
        i = i + 1;
    }
    None
}

/// `pat` occurs in `s` starting at `i`.
pub open spec fn match_at(s: Seq<char>, pat: Seq<char>, i: int) -> bool {
    0 <= i && i + pat.len() <= s.len() && forall|j: int|
        0 <= j < pat.len() ==> s[i + j] == pat[j]
}

/// `pat` occurs somewhere in `s`.
pub open spec fn contains_seq(s: Seq<char>, pat: Seq<char>) -> bool {
    exists|i: int| match_at(s, pat, i)
}

/// Whether `pat` occurs in `s` starting at position `i`.
pub fn matches_at(s: &str, pat: &str, i: usize) -> (r: bool)
    requires
        i + pat@.len() <= s@.len(),
    ensures
        r == match_at(s@, pat@, i as int),
{
    let n = s.unicode_len();
    let m = pat.unicode_len();
    let mut j: usize = 0;
    while j < m
        invariant
            0 <= j <= m,
            m == pat@.len(),
            n == s@.len(),
            i + m <= n,
            forall|k: int| 0 <= k < j ==> s@[i + k] == pat@[k],
        decreases m - j,
    {
        if s.get_char(i + j) != pat.get_char(j) {
            return false;
        }
        j = j + 1;
    }
    true
}

/// Literal substring test.
pub fn contains_str(s: &str, pat: &str) -> (r: bool)
    ensures
        r == contains_seq(s@, pat@),
{
    let n = s.unicode_len();
    let m = pat.unicode_len();
    if m > n {
        return false;
    }
    let mut i: usize = 0;
    while i <= n - m
        invariant
            0 <= i <= n - m + 1,
            m <= n,
            n == s@.len(),
            m == pat@.len(),
            forall|k: int| 0 <= k < i ==> !match_at(s@, pat@, k),
        decreases n - m + 1 - i,
    {
        if matches_at(s, pat, i) {
            return true;
        }
        i = i + 1;
    }
    false
}

/// Number of leading whitespace characters of `s`.
pub open spec fn trim_start_idx(s: Seq<char>) -> int
    decreases s.len(),
{
    if s.len() == 0 {
        0
    } else if is_space(s[0]) {
        1 + trim_start_idx(s.skip(1))
    } else {
        0
    }
}

/// Length of `s` once trailing whitespace is dropped.
pub open spec fn trim_end_idx(s: Seq<char>) -> int
    decreases s.len(),
{
    if s.len() == 0 {
        0
    } else if is_space(s.last()) {
        trim_end_idx(s.drop_last())
    } else {
        s.len() as int
    }
}

/// `s` with leading and trailing whitespace removed.
pub open spec fn trim_spec(s: Seq<char>) -> Seq<char> {
    s.skip(trim_start_idx(s)).take(trim_end_idx(s.skip(trim_start_idx(s))))
}

pub proof fn lemma_trim_start_idx(s: Seq<char>)
    ensures
        0 <= trim_start_idx(s) <= s.len(),
        trim_start_idx(s) < s.len() ==> !is_space(s[trim_start_idx(s)]),
        forall|j: int| 0 <= j < trim_start_idx(s) ==> is_space(s[j]),
    decreases s.len(),
{
    if s.len() == 0 {
    } else if is_space(s[0]) {
        lemma_trim_start_idx(s.skip(1));
        assert forall|j: int| 0 <= j < trim_start_idx(s) implies is_space(s[j]) by {
            if j > 0 {
                assert(s.skip(1)[j - 1] == s[j]);
            }
        }
    }
}

pub proof fn lemma_trim_end_idx(s: Seq<char>)
    ensures
        0 <= trim_end_idx(s) <= s.len(),
        trim_end_idx(s) > 0 ==> !is_space(s[trim_end_idx(s) - 1]),
        forall|j: int| trim_end_idx(s) <= j < s.len() ==> is_space(s[j]),
    decreases s.len(),
{
    if s.len() == 0 {
    } else if is_space(s.last()) {
        lemma_trim_end_idx(s.drop_last());
        assert forall|j: int| trim_end_idx(s) <= j < s.len() implies is_space(s[j]) by {
            if j < s.len() - 1 {
                assert(s.drop_last()[j] == s[j]);
            }
        }
    }
}

/// `s` with leading and trailing whitespace removed.
pub fn trim<'a>(s: &'a str) -> (r: &'a str)
    ensures
        r@ == trim_spec(s@),
{
    proof {
        lemma_trim_start_idx(s@);
    }
    let n = s.unicode_len();
    let mut start: usize = 0;
    while start < n && is_space_char(s.get_char(start))
        invariant
            0 <= start <= n,
            n == s@.len(),
            forall|j: int| 0 <= j < start ==> is_space(s@[j]),
            0 <= trim_start_idx(s@) <= s@.len(),
            trim_start_idx(s@) < s@.len() ==> !is_space(s@[trim_start_idx(s@)]),
            forall|j: int| 0 <= j < trim_start_idx(s@) ==> is_space(s@[j]),
            start <= trim_start_idx(s@),
        decreases n - start,
    {
        start = start + 1;
    }
    assert(start == trim_start_idx(s@));
    proof {
        lemma_trim_end_idx(s@.skip(start as int));
    }
    let ghost t = s@.skip(start as int);
    let mut end: usize = n;
    while end > start && is_space_char(s.get_char(end - 1))
        invariant
            start <= end <= n,
            n == s@.len(),
            t == s@.skip(start as int),
            forall|j: int| end <= j < n ==> is_space(s@[j]),
            0 <= trim_end_idx(t) <= t.len(),
            trim_end_idx(t) > 0 ==> !is_space(t[trim_end_idx(t) - 1]),
            forall|j: int| trim_end_idx(t) <= j < t.len() ==> is_space(t[j]),
            trim_end_idx(t) <= end - start,
        decreases end,
    {
        end = end - 1;
    }
    proof {
        if end > start {
            if trim_end_idx(t) < end - start {
                let j = end - 1 - start;
                assert(t[j] == s@[start + j]);
                assert(is_space(t[j]));
                assert(false);
            }
        }
        assert(end - start == trim_end_idx(t));
    }
    let r = s.substring_char(start, end);
    proof {
        assert(r@ =~= trim_spec(s@));
    }
    r
}

/// Whether `c` is one of the whitespace characters the library strips.
pub fn is_space_char(c: char) -> (r: bool)
    ensures
        r == is_space(c),
{
    c == ' ' || c == '\t' || c == '\r' || c == '\n'
}

/// ASCII lower-case code point of `c`.
pub fn lower_code_of(c: char) -> (r: u32)
    ensures
        r == lower_code(c),
{
    let u = c as u32;
    if 65 <= u && u <= 90 {
        u + 32
    } else {
        u
    }
}

/// `pat` occurs in `s` at `i`, comparing ASCII letters without case.
pub open spec fn match_at_ci(s: Seq<char>, pat: Seq<char>, i: int) -> bool {
    0 <= i && i + pat.len() <= s.len() && forall|j: int|
        0 <= j < pat.len() ==> lower_code(s[i + j]) == lower_code(pat[j])
}

/// `pat` occurs somewhere in `s`, comparing ASCII letters without case.
pub open spec fn contains_seq_ci(s: Seq<char>, pat: Seq<char>) -> bool {
    exists|i: int| match_at_ci(s, pat, i)
}

/// Substring test that ignores ASCII case.
pub fn contains_str_ci(s: &str, pat: &str) -> (r: bool)
    ensures
        r == contains_seq_ci(s@, pat@),
{
    let n = s.unicode_len();
    let m = pat.unicode_len();
    if m > n {
        return false;
    }
    let mut i: usize = 0;
    while i <= n - m
        invariant
            0 <= i <= n - m + 1,
            m <= n,
            n == s@.len(),
            m == pat@.len(),
            forall|k: int| 0 <= k < i ==> !match_at_ci(s@, pat@, k),
        decreases n - m + 1 - i,
    {
        let mut j: usize = 0;
        let mut hit = true;
        while j < m
            invariant
                0 <= j <= m,
                m == pat@.len(),
                n == s@.len(),
                i + m <= n,
                hit == forall|k: int| 0 <= k < j ==> lower_code(s@[i + k]) == lower_code(
                    pat@[k],
                ),
            decreases m - j,
        {
            if lower_code_of(s.get_char(i + j)) != lower_code_of(pat.get_char(j)) {
                hit = false;
                j = m;
            } else {
                j = j + 1;
            }
        }
        if hit {
            assert(match_at_ci(s@, pat@, i as int));
            return true;
        }
        i = i + 1;
    }
    false
}

/// Whether the character at `i` is an ASCII digit.
pub fn is_digit_char(s: &str, i: usize) -> (r: bool)
    requires
        i < s@.len(),
    ensures
        r == is_digit(s@[i as int]),
{
    let u = s.get_char(i) as u32;
    48 <= u && u <= 57
}

/// Character length of a string.
pub fn s_len(s: &str) -> (r: usize)
    ensures
        r == s@.len(),
{
    s.unicode_len()
}

/// Every character of `s` is an ASCII digit.
pub open spec fn all_digits(s: Seq<char>) -> bool {
    forall|j: int| 0 <= j < s.len() ==> is_digit(s[j])
}

/// Value of a digit string read as a decimal number.
pub open spec fn digits_val(s: Seq<char>) -> int
    decreases s.len(),
{
    if s.len() == 0 {
        0
    } else {
        digits_val(s.drop_last()) * 10 + digit_val(s.last())
    }
}

pub proof fn lemma_digits_val_nonneg(s: Seq<char>)
    requires
        all_digits(s),
    ensures
        digits_val(s) >= 0,
    decreases s.len(),
{
    if s.len() > 0 {
        assert(all_digits(s.drop_last()));
        lemma_digits_val_nonneg(s.drop_last());
    }
}

/// Reading more digits can only yield a larger value.
pub proof fn lemma_digits_val_prefix_le(s: Seq<char>, i: int)
    requires
        all_digits(s),
        0 <= i <= s.len(),
    ensures
        digits_val(s.take(i)) <= digits_val(s),
    decreases s.len(),
{
    if i < s.len() {
        assert(all_digits(s.drop_last()));
        assert(s.take(i) =~= s.drop_last().take(i));
        lemma_digits_val_prefix_le(s.drop_last(), i);
        lemma_digits_val_nonneg(s.drop_last());
    } else {
        assert(s.take(i) =~= s);
    }
}

/// Decimal parse of `s[from..to]`: a non-empty run of ASCII digits whose
/// value fits in `u32`; anything else is rejected.
pub fn parse_u32_range(s: &str, from: usize, to: usize) -> (r: Option<u32>)
    requires
        from <= to <= s@.len(),
    ensures
        ({
            let run = s@.subrange(from as int, to as int);
            match r {
                Some(v) => run.len() > 0 && all_digits(run) && digits_val(run) <= u32::MAX
                    && v == digits_val(run),
                None => run.len() == 0 || !all_digits(run) || digits_val(run) > u32::MAX,
            }
        }),
{
    let ghost run = s@.subrange(from as int, to as int);
    if from == to {
        return None;
    }
    let mut val: u64 = 0;
    let mut i: usize = from;
    while i < to
        invariant
            from <= i <= to <= s@.len(),
            run == s@.subrange(from as int, to as int),
            all_digits(run.take(i - from)),
            val == digits_val(run.take(i - from)),
            val <= u32::MAX,
        decreases to - i,
    {
        let c = s.get_char(i);
        let u = c as u32;
        if !(48 <= u && u <= 57) {
            assert(run[i - from] == s@[i as int]);
            assert(!all_digits(run));
            return None;
        }
        let d = (u - 48) as u64;
        let next = val * 10 + d;
        proof {
            assert(run.take(i + 1 - from).drop_last() =~= run.take(i - from));
            assert(run.take(i + 1 - from).last() == s@[i as int]);
        }
        if next > 0xffff_ffff {
            proof {
                if all_digits(run) {
                    lemma_digits_val_prefix_le(run, i + 1 - from);
                }
            }
            return None;
        }
        val = next;
        i = i + 1;
    }
    proof {
        assert(run.take(to - from) =~= run);
    }
    Some(val as u32)
}

/// Decimal parse of a whole string, as `parse_u32_range` parses a range.
pub open spec fn parse_u32_spec(s: Seq<char>) -> Option<int> {
    if s.len() > 0 && all_digits(s) && digits_val(s) <= u32::MAX {
        Some(digits_val(s))
    } else {
        None
    }
}

/// Decimal parse of a whole string.
pub fn parse_u32_str(s: &str) -> (r: Option<u32>)
    ensures
        match r {
            Some(v) => parse_u32_spec(s@) == Some(v as int),
            None => parse_u32_spec(s@) is None,
        },
{
    let n = s.unicode_len();
    proof {
        assert(s@.subrange(0, n as int) =~= s@);
    }
    parse_u32_range(s, 0, n)
}

/// Start of the run of digits that ends just before position `end`.
pub open spec fn digit_run_start(s: Seq<char>, end: int) -> int
    decreases end,
{
    if end <= 0 {
        0
    } else if !is_digit(s[end - 1]) {
        end
    } else {
        digit_run_start(s, end - 1)
    }
}

pub proof fn lemma_digit_run_start(s: Seq<char>, end: int)
    requires
        0 <= end <= s.len(),
    ensures
        0 <= digit_run_start(s, end) <= end,
        forall|j: int| digit_run_start(s, end) <= j < end ==> is_digit(s[j]),
        digit_run_start(s, end) > 0 ==> !is_digit(s[digit_run_start(s, end) - 1]),
    decreases end,
{
    if end > 0 && is_digit(s[end - 1]) {
        lemma_digit_run_start(s, end - 1);
    }
}

/// Index of the first occurrence of `pat` in `s`, or `s.len()` if absent.
pub open spec fn find_sub_idx(s: Seq<char>, pat: Seq<char>) -> int
    decreases s.len(),
{
    if s.len() == 0 {
        0
    } else if match_at(s, pat, 0) {
        0
    } else {
        1 + find_sub_idx(s.skip(1), pat)
    }
}

pub proof fn lemma_find_sub_idx(s: Seq<char>, pat: Seq<char>)
    requires
        pat.len() > 0,
    ensures
        0 <= find_sub_idx(s, pat) <= s.len(),
        find_sub_idx(s, pat) < s.len() ==> match_at(s, pat, find_sub_idx(s, pat)),
        forall|j: int| 0 <= j < find_sub_idx(s, pat) ==> !match_at(s, pat, j),
    decreases s.len(),
{
    if s.len() == 0 {
    } else if match_at(s, pat, 0) {
    } else {
        lemma_find_sub_idx(s.skip(1), pat);
        let f = find_sub_idx(s, pat);
        if f < s.len() {
            let g = f - 1;
            assert(match_at(s.skip(1), pat, g));
            assert forall|j: int| 0 <= j < pat.len() implies s[f + j] == pat[j] by {
                assert(s.skip(1)[g + j] == s[f + j]);
            }
        }
        assert forall|j: int| 0 <= j < f implies !match_at(s, pat, j) by {
            if j > 0 && match_at(s, pat, j) {
                assert forall|k: int| 0 <= k < pat.len() implies s.skip(1)[j - 1 + k] == pat[k] by {
                    assert(s.skip(1)[j - 1 + k] == s[j + k]);
                }
                assert(match_at(s.skip(1), pat, j - 1));
            }
        }
    }
}

/// First position where `pat` occurs in `s`, if any.
pub fn find_sub(s: &str, pat: &str) -> (r: Option<usize>)
    requires
        pat@.len() > 0,
    ensures
        match r {
            Some(i) => i == find_sub_idx(s@, pat@) && i < s@.len() && match_at(s@, pat@, i as int),
            None => find_sub_idx(s@, pat@) == s@.len(),
        },
{
    proof {
        lemma_find_sub_idx(s@, pat@);
    }
    let n = s.unicode_len();
    let m = pat.unicode_len();
    let mut i: usize = 0;
    while i < n
        invariant
            0 <= i <= n,
            n == s@.len(),
            m == pat@.len(),
            m > 0,
            forall|k: int| 0 <= k < i ==> !match_at(s@, pat@, k),
            0 <= find_sub_idx(s@, pat@) <= s@.len(),
            find_sub_idx(s@, pat@) < s@.len() ==> match_at(s@, pat@, find_sub_idx(s@, pat@)),
            forall|j: int| 0 <= j < find_sub_idx(s@, pat@) ==> !match_at(s@, pat@, j),
        decreases n - i,
    {
        if m <= n - i && matches_at(s, pat, i) {
            return Some(i);
        }
        i = i + 1;
    }
    None
}

/// One line of `str::lines`: the terminating newline and a carriage return
/// immediately before it are removed.
pub open spec fn strip_cr(l: Seq<char>) -> Seq<char> {
    if l.len() > 0 && l.last() == '\r' {
        l.drop_last()
    } else {
        l
    }
}

/// The lines of `s`, split as `str::lines` splits them: at each `'\n'`,
/// dropping a `'\r'` left at a line's end, with no empty final line.
pub open spec fn lines_spec(s: Seq<char>) -> Seq<Seq<char>>
    decreases s.len(),
{
    if s.len() == 0 {
        Seq::empty()
    } else {
        let i = find_idx(s, '\n');
        if i >= s.len() {
            seq![s]
        } else if i < 0 {
            // unreachable: a found index is never negative; the branch
            // only bounds the recursion

            Seq::empty()
        } else {
            seq![strip_cr(s.take(i))] + lines_spec(s.skip(i + 1))
        }
    }
}

/// Split `s` into its lines.
pub fn lines(s: &str) -> (r: Vec<String>)
    ensures
        r@.map_values(|l: String| l@) == lines_spec(s@),
{
    let n = s.unicode_len();
    let mut r: Vec<String> = Vec::new();
    let mut pos: usize = 0;
    proof {
        assert(s@.skip(0) =~= s@);
        assert(r@.map_values(|l: String| l@) + lines_spec(s@) =~= lines_spec(s@));
    }
    while pos < n
        invariant
            0 <= pos <= n,
            n == s@.len(),
            lines_spec(s@) == r@.map_values(|l: String| l@) + lines_spec(s@.skip(pos as int)),
        decreases n - pos,
    {
        let ghost rest = s@.skip(pos as int);
        let tail = s.substring_char(pos, n);
        assert(tail@ == rest);
        proof {
            lemma_find_idx(rest, '\n');
        }
        match find_char(tail, '\n') {
            Some(i) => {
                let line_end = pos + i;
                let line = if i > 0 && s.get_char(line_end - 1) == '\r' {
                    s.substring_char(pos, line_end - 1)
                } else {
                    s.substring_char(pos, line_end)
                };
                proof {
                    assert(rest.take(i as int) =~= s@.subrange(pos as int, line_end as int));
                    if i > 0 && s@[line_end - 1] == '\r' {
                        assert(rest.take(i as int).last() == s@[line_end - 1]);
                        assert(line@ =~= strip_cr(rest.take(i as int)));
                    } else {
                        if rest.take(i as int).len() > 0 {
                            assert(rest.take(i as int).last() == s@[line_end - 1]);
                        }
                        assert(line@ =~= strip_cr(rest.take(i as int)));
                    }
                    assert(rest.skip(i + 1) =~= s@.skip(line_end + 1));
                }
                let owned = line.to_owned();
                r.push(owned);
                proof {
                    assert(r@.map_values(|l: String| l@) =~= r@.drop_last().map_values(
                        |l: String| l@,
                    ).push(line@));
                }
                pos = line_end + 1;
            },
            None => {
                let line = tail.to_owned();
                r.push(line);
                proof {
                    assert(r@.map_values(|l: String| l@) =~= r@.drop_last().map_values(
                        |l: String| l@,
                    ).push(rest));
                }
                pos = n;
            },
        }
    }
    proof {
        assert(s@.skip(n as int) =~= Seq::<char>::empty());
        assert(r@.map_values(|l: String| l@) =~= lines_spec(s@));
    }
    r
}

/// `s` with every non-overlapping occurrence of `pat` removed, left to
/// right, as `str::replace(pat, "")` removes them.
pub open spec fn remove_occ(s: Seq<char>, pat: Seq<char>) -> Seq<char>
    decreases s.len(),
{
    if pat.len() == 0 || s.len() == 0 {
        s
    } else if match_at(s, pat, 0) {
        remove_occ(s.skip(pat.len() as int), pat)
    } else {
        seq![s[0]] + remove_occ(s.skip(1), pat)
    }
}

/// Remove every occurrence of `pat` from `s`.
pub fn remove_all(s: &str, pat: &str) -> (r: String)
    ensures
        r@ == remove_occ(s@, pat@),
{
    let n = s.unicode_len();
    let m = pat.unicode_len();
    if m == 0 {
        return s.to_owned();
    }
    let mut r = String::new();
    let mut pos: usize = 0;
    proof {
        assert(s@.skip(0) =~= s@);
        assert(r@ + remove_occ(s@, pat@) =~= remove_occ(s@, pat@));
    }
    while pos < n
        invariant
            0 <= pos <= n,
            n == s@.len(),
            m == pat@.len(),
            m > 0,
            remove_occ(s@, pat@) == r@ + remove_occ(s@.skip(pos as int), pat@),
        decreases n - pos,
    {
        let ghost rest = s@.skip(pos as int);
        if m <= n - pos && matches_at(s, pat, pos) {
            proof {
                assert(match_at(rest, pat@, 0)) by {
                    assert(forall|j: int| 0 <= j < m ==> rest[j] == s@[pos + j]);
                }
                assert(rest.skip(m as int) =~= s@.skip(pos + m));
            }
            pos = pos + m;
        } else {
            proof {
                assert(!match_at(rest, pat@, 0)) by {
                    if match_at(rest, pat@, 0) {
                        assert(forall|j: int| 0 <= j < m ==> s@[pos + j] == rest[j]);
                        assert(match_at(s@, pat@, pos as int));
                    }
                }
                assert(rest.skip(1) =~= s@.skip(pos + 1));
            }
            let c = s.substring_char(pos, pos + 1);
            r.append(c);
            proof {
                assert(c@ =~= seq![rest[0]]);
            }
            pos = pos + 1;
        }
    }
    proof {
        assert(s@.skip(n as int) =~= Seq::<char>::empty());
    }
    r
}

/// Index of the first whitespace character of `s`, or `s.len()` if none.
pub open spec fn space_idx(s: Seq<char>) -> int
    decreases s.len(),
{
    if s.len() == 0 {
        0
    } else if is_space(s[0]) {
        0
    } else {
        1 + space_idx(s.skip(1))
    }
}

pub proof fn lemma_space_idx(s: Seq<char>)
    ensures
        0 <= space_idx(s) <= s.len(),
        space_idx(s) < s.len() ==> is_space(s[space_idx(s)]),
        forall|j: int| 0 <= j < space_idx(s) ==> !is_space(s[j]),
    decreases s.len(),
{
    if s.len() == 0 {
    } else if is_space(s[0]) {
    } else {
        lemma_space_idx(s.skip(1));
        assert forall|j: int| 0 <= j < space_idx(s) implies !is_space(s[j]) by {
            if j > 0 {
                assert(s.skip(1)[j - 1] == s[j]);
            }
        }
    }
}

/// Position of the first whitespace character, or the length if none.
pub fn find_space(s: &str) -> (r: usize)
    ensures
        r == space_idx(s@),
        r <= s@.len(),
{
    proof {
        lemma_space_idx(s@);
    }
    let n = s.unicode_len();
    let mut i: usize = 0;
    while i < n
        invariant
            0 <= i <= n,
            n == s@.len(),
            forall|j: int| 0 <= j < i ==> !is_space(s@[j]),
            0 <= space_idx(s@) <= s@.len(),
            space_idx(s@) < s@.len() ==> is_space(s@[space_idx(s@)]),
            forall|j: int| 0 <= j < space_idx(s@) ==> !is_space(s@[j]),
        decreases n - i,
    {
        if is_space_char(s.get_char(i)) {
            return i;
        }
        i = i + 1;
    }
    n
}

/// `s` with its leading whitespace removed.
pub fn skip_spaces<'a>(s: &'a str) -> (r: &'a str)
    ensures
        r@ == s@.skip(trim_start_idx(s@)),
{
    proof {
        lemma_trim_start_idx(s@);
    }
    let n = s.unicode_len();
    let mut start: usize = 0;
    while start < n && is_space_char(s.get_char(start))
        invariant
            0 <= start <= n,
            n == s@.len(),
            forall|j: int| 0 <= j < start ==> is_space(s@[j]),
            0 <= trim_start_idx(s@) <= s@.len(),
            trim_start_idx(s@) < s@.len() ==> !is_space(s@[trim_start_idx(s@)]),
            forall|j: int| 0 <= j < trim_start_idx(s@) ==> is_space(s@[j]),
            start <= trim_start_idx(s@),
        decreases n - start,
    {
        start = start + 1;
    }
    assert(start == trim_start_idx(s@));
    let r = s.substring_char(start, n);
    proof {
        assert(r@ =~= s@.skip(trim_start_idx(s@)));
    }
    r
}

#[via_fn]
proof fn split_ws_decreases(s: Seq<char>)
{
    lemma_trim_start_idx(s);
    if trim_start_idx(s) < s.len() {
        lemma_space_idx(s.skip(trim_start_idx(s)));
        assert(s.skip(trim_start_idx(s))[0] == s[trim_start_idx(s)]);
        assert(space_idx(s.skip(trim_start_idx(s))) > 0);
    }
}

/// The whitespace-separated tokens of `s`, in order.
pub open spec fn split_ws(s: Seq<char>) -> Seq<Seq<char>>
    decreases s.len(),
    via split_ws_decreases
{
    let t = s.skip(trim_start_idx(s));
    if t.len() == 0 {
        Seq::empty()
    } else {
        seq![t.take(space_idx(t))] + split_ws(t.skip(space_idx(t)))
    }
}

/// Split `s` into its whitespace-separated tokens.
#[verifier::loop_isolation(false)]
pub fn split_tokens(s: &str) -> (r: Vec<String>)
    ensures
        r@.map_values(|t: String| t@) == split_ws(s@),
{
    let n = s_len(s);
    let mut r: Vec<String> = Vec::new();
    let mut pos: usize = 0;
    proof {
        assert(s@.skip(0) =~= s@);
        assert(r@.map_values(|t: String| t@) + split_ws(s@) =~= split_ws(s@));
    }
    while pos < n
        invariant
            0 <= pos <= n,
            split_ws(s@) == r@.map_values(|t: String| t@) + split_ws(s@.skip(pos as int)),
        decreases n - pos,
    {
        let ghost rest = s@.skip(pos as int);
        proof {
            lemma_trim_start_idx(rest);
        }
        if is_space_char(s.get_char(pos)) {
            proof {
                assert(rest[0] == s@[pos as int]);
                assert(rest.skip(1) =~= s@.skip(pos + 1));
                assert(rest.skip(trim_start_idx(rest)) =~= rest.skip(1).skip(
                    trim_start_idx(rest.skip(1)),
                )) by {
                    assert(trim_start_idx(rest) == 1 + trim_start_idx(rest.skip(1)));
                }
            }
            pos = pos + 1;
        } else {
            proof {
                assert(rest[0] == s@[pos as int]);
                assert(trim_start_idx(rest) == 0);
                assert(rest.skip(0) =~= rest);
                lemma_space_idx(rest);
            }
            let mut e = pos;
            while e < n && !is_space_char(s.get_char(e))
                invariant
                    pos <= e <= n,
                    forall|j: int| pos <= j < e ==> !is_space(s@[j]),
                    e - pos <= space_idx(rest),
                decreases n - e,
            {
                proof {
                    if e - pos == space_idx(rest) {
                        assert(rest[space_idx(rest)] == s@[e as int]);
                        assert(false);
                    }
                }
                e = e + 1;
            }
            proof {
                if e - pos < space_idx(rest) {
                    assert(rest[e - pos] == s@[e as int]);
                    assert(!is_space(rest[e - pos]));
                    if e == n {
                        assert(space_idx(rest) <= rest.len());
                        assert(false);
                    }
                    assert(false);
                }
                assert(e - pos == space_idx(rest));
            }
            let tok = s.substring_char(pos, e);
            proof {
                assert(tok@ =~= rest.take(space_idx(rest)));
            }
            let ghost prev = r@;
            r.push(tok.to_owned());
            proof {
                assert(r@.map_values(|t: String| t@) =~= prev.map_values(|t: String| t@).push(
                    rest.take(space_idx(rest)),
                ));
                assert(rest.skip(space_idx(rest)) =~= s@.skip(e as int));
            }
            pos = e;
        }
    }
    proof {
        assert(s@.skip(n as int) =~= Seq::<char>::empty());
        assert(Seq::<char>::empty().skip(trim_start_idx(Seq::<char>::empty()))
            =~= Seq::<char>::empty());
    }
    r
}

/// Two strings are equal once ASCII case is ignored.
pub open spec fn eq_ci(a: Seq<char>, b: Seq<char>) -> bool {
    a.len() == b.len() && forall|j: int| 0 <= j < a.len() ==> lower_code(a[j]) == lower_code(b[j])
}

/// Equality that ignores ASCII case.
pub fn eq_ignore_case(a: &str, b: &str) -> (r: bool)
    ensures
        r == eq_ci(a@, b@),
{
    let n = a.unicode_len();
    if n != b.unicode_len() {
        return false;
    }
    let mut j: usize = 0;
    while j < n
        invariant
            0 <= j <= n,
            n == a@.len(),
            n == b@.len(),
            forall|k: int| 0 <= k < j ==> lower_code(a@[k]) == lower_code(b@[k]),
        decreases n - j,
    {
        if lower_code_of(a.get_char(j)) != lower_code_of(b.get_char(j)) {
            return false;
        }
        j = j + 1;
    }
    true
}

} // verus!
