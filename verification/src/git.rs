use vstd::prelude::*;
use crate::text::{
    contains_seq_ci, contains_str_ci, eq_ci, eq_ignore_case, is_digit, is_digit_char, lines,
    lines_spec, remove_all, remove_occ, s_len, trim, trim_spec,
};

verus! {

/// Namespace for the version-control logic: progress decoding, tag
/// filtering and output parsing. The subprocess calls themselves live
/// outside the library and hand their captured output to these functions.
pub struct Git;

/// Index of the first ASCII digit of `s`, or `s.len()` if none.
pub open spec fn first_digit_idx(s: Seq<char>) -> int
    decreases s.len(),
{
    if s.len() == 0 {
        0
    } else if is_digit(s[0]) {
        0
    } else {
        1 + first_digit_idx(s.skip(1))
    }
}

pub proof fn lemma_first_digit_idx(s: Seq<char>)
    ensures
        0 <= first_digit_idx(s) <= s.len(),
        first_digit_idx(s) < s.len() ==> is_digit(s[first_digit_idx(s)]),
        forall|j: int| 0 <= j < first_digit_idx(s) ==> !is_digit(s[j]),
    decreases s.len(),
{
    if s.len() == 0 {
    } else if is_digit(s[0]) {
    } else {
        lemma_first_digit_idx(s.skip(1));
        assert forall|j: int| 0 <= j < first_digit_idx(s) implies !is_digit(s[j]) by {
            if j > 0 {
                assert(s.skip(1)[j - 1] == s[j]);
            }
        }
    }
}

/// Length of the version run at the start of `s`, with `dots` interior
/// dots already taken: digits extend the run; a dot extends it while
/// fewer than two have been taken; anything else ends it.
pub open spec fn version_run_len(s: Seq<char>, dots: int) -> int
    decreases s.len(),
{
    if s.len() == 0 {
        0
    } else if is_digit(s[0]) {
        1 + version_run_len(s.skip(1), dots)
    } else if s[0] == '.' && dots < 2 {
        1 + version_run_len(s.skip(1), dots + 1)
    } else {
        0
    }
}

pub proof fn lemma_version_run_len(s: Seq<char>, dots: int)
    ensures
        0 <= version_run_len(s, dots) <= s.len(),
    decreases s.len(),
{
    if s.len() > 0 && (is_digit(s[0]) || (s[0] == '.' && dots < 2)) {
        lemma_version_run_len(s.skip(1), dots + (if is_digit(s[0]) { 0int } else { 1int }));
    }
}

/// `v` with its trailing dots removed.
pub open spec fn trim_dots(v: Seq<char>) -> Seq<char>
    decreases v.len(),
{
    if v.len() > 0 && v.last() == '.' {
        trim_dots(v.drop_last())
    } else {
        v
    }
}

pub proof fn lemma_trim_dots(v: Seq<char>)
    ensures
        0 <= trim_dots(v).len() <= v.len(),
        trim_dots(v) == v.take(trim_dots(v).len() as int),
        trim_dots(v).len() > 0 ==> v[trim_dots(v).len() - 1] != '.',
        forall|j: int| trim_dots(v).len() <= j < v.len() ==> v[j] == '.',
    decreases v.len(),
{
    if v.len() > 0 && v.last() == '.' {
        lemma_trim_dots(v.drop_last());
        let w = v.drop_last();
        assert(w.take(trim_dots(w).len() as int) =~= v.take(trim_dots(w).len() as int));
        assert forall|j: int| trim_dots(v).len() <= j < v.len() implies v[j] == '.' by {
            if j < v.len() - 1 {
                assert(w[j] == v[j]);
            }
        }
    } else {
        assert(v.take(v.len() as int) =~= v);
    }
}

/// Number of dots in `s`.
pub open spec fn count_dots(s: Seq<char>) -> int
    decreases s.len(),
{
    if s.len() == 0 {
        0
    } else {
        (if s[0] == '.' {
            1int
        } else {
            0int
        }) + count_dots(s.skip(1))
    }
}

pub proof fn lemma_count_dots_nonneg(s: Seq<char>)
    ensures
        count_dots(s) >= 0,
    decreases s.len(),
{
    if s.len() > 0 {
        lemma_count_dots_nonneg(s.skip(1));
    }
}

/// A digit-and-dot run with at most two dots.
pub open spec fn run_ok(s: Seq<char>) -> bool {
    (forall|j: int| 0 <= j < s.len() ==> (is_digit(s[j]) || s[j] == '.')) && count_dots(s) <= 2
}

/// The greedy scan takes exactly the longest prefix that is all digits
/// and dots with at most `2 - dots` dots.
pub proof fn lemma_version_run(s: Seq<char>, dots: int)
    requires
        0 <= dots <= 2,
    ensures
        ({
            let v = version_run_len(s, dots);
            &&& 0 <= v <= s.len()
            &&& forall|j: int| 0 <= j < v ==> (is_digit(s[j]) || s[j] == '.')
            &&& count_dots(s.take(v)) + dots <= 2
            &&& forall|m: int| v < m <= s.len() ==> !(count_dots(s.take(m)) + dots <= 2 && forall|
                j: int,
            | 0 <= j < m ==> (is_digit(s[j]) || s[j] == '.'))
        }),
    decreases s.len(),
{
    lemma_version_run_len(s, dots);
    let v = version_run_len(s, dots);
    if s.len() == 0 {
        assert(s.take(0) =~= s);
    } else if is_digit(s[0]) || (s[0] == '.' && dots < 2) {
        let d2 = if is_digit(s[0]) {
            dots
        } else {
            dots + 1
        };
        lemma_version_run(s.skip(1), d2);
        let w = version_run_len(s.skip(1), d2);
        assert(v == 1 + w);
        assert forall|j: int| 0 <= j < v implies (is_digit(s[j]) || s[j] == '.') by {
            if j > 0 {
                assert(s.skip(1)[j - 1] == s[j]);
            }
        }
        assert forall|m: int| 1 <= m <= s.len() implies count_dots(s.take(m)) == (if s[0] == '.' {
            1int
        } else {
            0int
        }) + count_dots(s.skip(1).take(m - 1)) by {
            assert(s.take(m)[0] == s[0]);
            assert(s.take(m).skip(1) =~= s.skip(1).take(m - 1));
        }
        assert(count_dots(s.take(v)) + dots <= 2);
        assert forall|m: int| v < m <= s.len() implies !(count_dots(s.take(m)) + dots <= 2
            && forall|j: int| 0 <= j < m ==> (is_digit(s[j]) || s[j] == '.')) by {
            if count_dots(s.take(m)) + dots <= 2 && (forall|j: int|
                0 <= j < m ==> (is_digit(s[j]) || s[j] == '.')) {
                assert(count_dots(s.skip(1).take(m - 1)) + d2 <= 2);
                assert forall|j: int| 0 <= j < m - 1 implies (is_digit(s.skip(1)[j]) || s.skip(
                    1,
                )[j] == '.') by {
                    assert(s.skip(1)[j] == s[j + 1]);
                }
                assert(false);
            }
        }
    } else {
        assert(v == 0);
        assert forall|m: int| 0 < m <= s.len() implies !(count_dots(s.take(m)) + dots <= 2
            && forall|j: int| 0 <= j < m ==> (is_digit(s[j]) || s[j] == '.')) by {
            if count_dots(s.take(m)) + dots <= 2 && (forall|j: int|
                0 <= j < m ==> (is_digit(s[j]) || s[j] == '.')) {
                assert(is_digit(s[0]) || s[0] == '.');
                assert(s[0] == '.' && dots == 2);
                assert(s.take(m)[0] == s[0]);
                assert(s.take(m).skip(1) =~= s.skip(1).take(m - 1));
                lemma_count_dots_nonneg(s.skip(1).take(m - 1));
                assert(count_dots(s.take(m)) >= 1);
                assert(false);
            }
        }
    }
}

/// A tag's version is the longest digit-and-dot run starting at its
/// first digit, capped at two interior dots, with trailing dots removed:
/// there is a version exactly when the tag holds a digit; the version is
/// that longest run up to its trailing dots, it is non-empty, it starts
/// with the first digit, and it never ends in a dot.
pub proof fn lemma_version_is_longest_run(s: Seq<char>)
    ensures
        (version_of(s) is Some) <==> first_digit_idx(s) < s.len(),
        ({
            let fd = first_digit_idx(s);
            let tail = s.skip(fd);
            let run = tail.take(version_run_len(tail, 0));
            version_of(s) matches Some(v) ==> {
                &&& run_ok(run)
                &&& forall|m: int| run.len() < m <= tail.len() ==> !run_ok(tail.take(m))
                &&& v == trim_dots(run)
                &&& v.len() > 0
                &&& v[0] == s[fd]
                &&& v.last() != '.'
            }
        }),
{
    lemma_first_digit_idx(s);
    let fd = first_digit_idx(s);
    if fd < s.len() {
        let tail = s.skip(fd);
        lemma_version_run(tail, 0);
        let rl = version_run_len(tail, 0);
        let run = tail.take(rl);
        assert(tail[0] == s[fd]);
        assert(is_digit(tail[0]));
        lemma_version_run_len(tail.skip(1), 0);
        assert(rl >= 1);
        lemma_trim_dots(run);
        let v = trim_dots(run);
        assert(run[0] == tail[0]);
        if v.len() == 0 {
            assert(run[0] == '.');
            assert(false);
        }
        assert(v == run.take(v.len() as int));
        assert(v[0] == run[0]);
        assert forall|j: int| 0 <= j < run.len() implies (is_digit(run[j]) || run[j] == '.') by {
            assert(run[j] == tail[j]);
        }
        assert forall|m: int| run.len() < m <= tail.len() implies !run_ok(tail.take(m)) by {
            if run_ok(tail.take(m)) {
                assert forall|j: int| 0 <= j < m implies (is_digit(tail[j]) || tail[j] == '.') by {
                    assert(tail.take(m)[j] == tail[j]);
                }
                assert(false);
            }
        }
        assert(count_dots(run) == count_dots(tail.take(rl)));
        assert(run_ok(run));
    }
}
/// the first digit, capped at two interior dots, with trailing dots
/// removed; `None` when the tag holds no digit.
pub open spec fn version_of(s: Seq<char>) -> Option<Seq<char>> {
    let fd = first_digit_idx(s);
    if fd >= s.len() {
        None
    } else {
        let run = s.skip(fd).take(version_run_len(s.skip(fd), 0));
        let v = trim_dots(run);
        if v.len() == 0 {
            None
        } else {
            Some(v)
        }
    }
}

/// The display label derived from a tag: `dev-` or `qa-` (whichever marker
/// the tag contains, ASCII case ignored, `dev` first) followed by its
/// version number; the tag itself when it has no marker or no version.
pub open spec fn display_of(t: Seq<char>) -> Seq<char> {
    if contains_seq_ci(t, "dev"@) {
        match version_of(t) {
            Some(v) => "dev-"@ + v,
            None => t,
        }
    } else if contains_seq_ci(t, "qa"@) {
        match version_of(t) {
            Some(v) => "qa-"@ + v,
            None => t,
        }
    } else {
        t
    }
}

/// A trimmed tag line that survives the marker filter: non-empty and
/// containing `dev` or `qa`, ASCII case ignored.
pub open spec fn is_tag_candidate(t: Seq<char>) -> bool {
    t.len() > 0 && (contains_seq_ci(t, "dev"@) || contains_seq_ci(t, "qa"@))
}

/// The trimmed, filtered tag lines of the tag-list output, in order.
pub open spec fn candidates_of(ls: Seq<Seq<char>>) -> Seq<Seq<char>>
    decreases ls.len(),
{
    if ls.len() == 0 {
        Seq::empty()
    } else {
        let t = trim_spec(ls[0]);
        let rest = candidates_of(ls.skip(1));
        if is_tag_candidate(t) {
            seq![t] + rest
        } else {
            rest
        }
    }
}

/// Some entry of `acc` already carries the display label `lbl`.
pub open spec fn label_in(acc: Seq<(Seq<char>, Seq<char>)>, lbl: Seq<char>) -> bool {
    exists|i: int| 0 <= i < acc.len() && acc[i].1 == lbl
}

/// Fold the candidate tags onto the seeded entry list: each tag is added
/// with its display label unless the label was already taken or the list
/// already holds `limit` entries.
pub open spec fn dedup_tags(
    tags: Seq<Seq<char>>,
    acc: Seq<(Seq<char>, Seq<char>)>,
    limit: int,
) -> Seq<(Seq<char>, Seq<char>)>
    decreases tags.len(),
{
    if tags.len() == 0 || acc.len() >= limit {
        acc
    } else {
        let t = tags[0];
        let lbl = display_of(t);
        if label_in(acc, lbl) {
            dedup_tags(tags.skip(1), acc, limit)
        } else {
            dedup_tags(tags.skip(1), acc.push((t, lbl)), limit)
        }
    }
}

/// The synthetic leading entries for the special remote branches, dev
/// before qa.
pub open spec fn synth_entries(has_dev: bool, has_qa: bool) -> Seq<(Seq<char>, Seq<char>)> {
    let d: Seq<(Seq<char>, Seq<char>)> = if has_dev {
        seq![("BRANCH:dev"@, "dev-latest"@)]
    } else {
        Seq::empty()
    };
    let q: Seq<(Seq<char>, Seq<char>)> = if has_qa {
        seq![("BRANCH:qa"@, "qa-latest"@)]
    } else {
        Seq::empty()
    };
    d + q
}

/// The full filtered tag list: synthetic branch entries first, then the
/// filtered tags in their given (most recent first) order, deduplicated
/// by display label and truncated to `limit` entries in all.
pub open spec fn filtered_tags_spec(
    out: Seq<char>,
    has_dev: bool,
    has_qa: bool,
    limit: int,
) -> Seq<(Seq<char>, Seq<char>)> {
    let seed0 = synth_entries(has_dev, has_qa);
    let seed = if seed0.len() <= limit {
        seed0
    } else {
        seed0.take(limit)
    };
    dedup_tags(candidates_of(lines_spec(out)), seed, limit)
}

/// The `(raw identifier, display label)` views of an entry list.
pub open spec fn entries_view(v: Seq<(String, String)>) -> Seq<(Seq<char>, Seq<char>)> {
    v.map_values(|e: (String, String)| (e.0@, e.1@))
}

/// `a` appears inside `b` in order, possibly with entries of `b` skipped.
pub open spec fn is_subseq(a: Seq<Seq<char>>, b: Seq<Seq<char>>) -> bool
    decreases b.len(),
{
    if a.len() == 0 {
        true
    } else if b.len() == 0 {
        false
    } else if a[0] == b[0] {
        is_subseq(a.skip(1), b.skip(1))
    } else {
        is_subseq(a, b.skip(1))
    }
}

pub proof fn lemma_subseq_tail(a: Seq<Seq<char>>, b: Seq<Seq<char>>)
    requires
        is_subseq(a, b),
        a.len() > 0,
    ensures
        is_subseq(a.skip(1), b),
    decreases b.len(),
{
    if b.len() == 0 {
    } else if a[0] == b[0] {
        if a.skip(1).len() > 0 && a.skip(1)[0] == b[0] {
            lemma_subseq_tail(a.skip(1), b.skip(1));
            assert(a.skip(1).skip(1) =~= a.skip(2));
        }
    } else {
        lemma_subseq_tail(a, b.skip(1));
        if a.skip(1).len() > 0 && a.skip(1)[0] == b[0] {
            lemma_subseq_tail(a.skip(1), b.skip(1));
            assert(a.skip(1).skip(1) =~= a.skip(2));
        }
    }
}

pub proof fn lemma_subseq_cons(a: Seq<Seq<char>>, b: Seq<Seq<char>>)
    requires
        b.len() > 0,
        is_subseq(a, b.skip(1)),
    ensures
        is_subseq(a, b),
{
    if a.len() > 0 && a[0] == b[0] {
        lemma_subseq_tail(a, b.skip(1));
    }
}

/// The raw identifiers of spec-level entries, in order.
pub open spec fn raw_parts(entries: Seq<(Seq<char>, Seq<char>)>) -> Seq<Seq<char>> {
    entries.map_values(|e: (Seq<char>, Seq<char>)| e.0)
}

/// The dedup fold only appends: the seed stays as the prefix, what
/// follows takes its raw identifiers from the candidate tags in their
/// given order, and a seed within the limit keeps the whole list within
/// the limit.
pub proof fn lemma_dedup_shape(
    tags: Seq<Seq<char>>,
    acc: Seq<(Seq<char>, Seq<char>)>,
    limit: int,
)
    ensures
        dedup_tags(tags, acc, limit).len() >= acc.len(),
        dedup_tags(tags, acc, limit).take(acc.len() as int) == acc,
        is_subseq(raw_parts(dedup_tags(tags, acc, limit).skip(acc.len() as int)), tags),
        acc.len() <= limit ==> dedup_tags(tags, acc, limit).len() <= limit,
    decreases tags.len(),
{
    let d = dedup_tags(tags, acc, limit);
    if tags.len() == 0 || acc.len() >= limit {
        assert(d == acc);
        assert(d.take(acc.len() as int) =~= acc);
        assert(d.skip(acc.len() as int) =~= Seq::<(Seq<char>, Seq<char>)>::empty());
        assert(raw_parts(d.skip(acc.len() as int)) =~= Seq::<Seq<char>>::empty());
    } else {
        let t = tags[0];
        let lbl = display_of(t);
        if label_in(acc, lbl) {
            lemma_dedup_shape(tags.skip(1), acc, limit);
            lemma_subseq_cons(raw_parts(d.skip(acc.len() as int)), tags);
        } else {
            let acc2 = acc.push((t, lbl));
            lemma_dedup_shape(tags.skip(1), acc2, limit);
            assert(d.take(acc2.len() as int) == acc2);
            assert forall|j: int| 0 <= j < acc.len() implies #[trigger] d[j] == acc[j] by {
                assert(d.take(acc2.len() as int)[j] == d[j]);
                assert(acc2[j] == acc[j]);
            }
            assert(d.take(acc.len() as int) =~= acc);
            let x = d.skip(acc.len() as int);
            assert(d[acc.len() as int] == acc2[acc.len() as int]);
            assert(x[0] == (t, lbl));
            assert(x.skip(1) =~= d.skip(acc2.len() as int));
            assert(raw_parts(x)[0] == t);
            assert(raw_parts(x).skip(1) =~= raw_parts(d.skip(acc2.len() as int)));
            assert(is_subseq(raw_parts(x).skip(1), tags.skip(1)));
            assert(raw_parts(x).len() > 0);
            assert(is_subseq(raw_parts(x), tags));
        }
    }
}

/// The filtered tag list holds at most `limit` entries, begins with the
/// synthetic branch entries (dev before qa, truncated to the limit), and
/// continues with surviving tags whose raw identifiers keep the tag
/// list's own (most recent first) order.
pub proof fn lemma_filtered_tags_shape(
    out: Seq<char>,
    has_dev: bool,
    has_qa: bool,
    limit: int,
)
    requires
        limit >= 0,
    ensures
        ({
            let r = filtered_tags_spec(out, has_dev, has_qa, limit);
            let seed0 = synth_entries(has_dev, has_qa);
            let seed = if seed0.len() <= limit {
                seed0
            } else {
                seed0.take(limit)
            };
            &&& r.len() <= limit
            &&& r.take(seed.len() as int) == seed
            &&& is_subseq(raw_parts(r.skip(seed.len() as int)), candidates_of(lines_spec(out)))
        }),
{
    let seed0 = synth_entries(has_dev, has_qa);
    let seed = if seed0.len() <= limit {
        seed0
    } else {
        seed0.take(limit)
    };
    lemma_dedup_shape(candidates_of(lines_spec(out)), seed, limit);
}

/// A branch-list line names `name` once its remote prefix is dropped,
/// ASCII case ignored.
pub open spec fn branch_matches(b: Seq<char>, name: Seq<char>) -> bool {
    eq_ci(remove_occ(b, "origin/"@), name)
}

impl Git {
    /// The version number inside a tag, such as `1.2.3` in `dev_v1.2.3-rc`.
    #[verifier::loop_isolation(false)]
    pub fn extract_version(tag: &str) -> (r: Option<String>)
        ensures
            match r {
                Some(v) => version_of(tag@) == Some(v@),
                None => version_of(tag@) is None,
            },
    {
        let n = s_len(tag);
        proof {
            lemma_first_digit_idx(tag@);
        }
        let mut fd: usize = 0;
        while fd < n && !is_digit_char(tag, fd)
            invariant
                0 <= fd <= n,
                forall|j: int| 0 <= j < fd ==> !is_digit(tag@[j]),
                fd <= first_digit_idx(tag@),
            decreases n - fd,
        {
            proof {
                if fd == first_digit_idx(tag@) {
                    assert(is_digit(tag@[fd as int]));
                }
            }
            fd = fd + 1;
        }
        proof {
            if fd < first_digit_idx(tag@) {
                assert(!is_digit(tag@[fd as int]));
                assert(false);
            }
        }
        if fd == n {
            return None;
        }
        let ghost suffix = tag@.skip(fd as int);
        let mut end: usize = fd;
        let mut dots: u32 = 0;
        proof {
            assert(suffix.skip(0) =~= suffix);
        }
        let mut scanning = true;
        while scanning && end < n
            invariant
                fd <= end <= n,
                dots <= 2,
                suffix == tag@.skip(fd as int),
                scanning ==> version_run_len(suffix, 0) == (end - fd) + version_run_len(
                    tag@.skip(end as int),
                    dots as int,
                ),
                !scanning ==> version_run_len(suffix, 0) == end - fd,
            decreases n - end + (if scanning { 1int } else { 0int }),
        {
            let ghost rest = tag@.skip(end as int);
            proof {
                assert(rest[0] == tag@[end as int]);
                assert(rest.skip(1) =~= tag@.skip(end + 1));
            }
            if is_digit_char(tag, end) {
                end = end + 1;
            } else if tag.get_char(end) == '.' && dots < 2 {
                dots = dots + 1;
                end = end + 1;
            } else {
                scanning = false;
            }
        }
        proof {
            if scanning {
                assert(tag@.skip(n as int) =~= Seq::<char>::empty());
            }
            assert(version_run_len(suffix, 0) == end - fd);
        }
        let ghost run = suffix.take(version_run_len(suffix, 0));
        proof {
            lemma_trim_dots(run);
            assert(forall|j: int| 0 <= j < run.len() ==> run[j] == tag@[fd + j]);
        }
        let mut ve: usize = end;
        while ve > fd && tag.get_char(ve - 1) == '.'
            invariant
                fd <= ve <= end,
                forall|j: int| ve <= j < end ==> tag@[j] == '.',
                trim_dots(run).len() <= ve - fd,
            decreases ve,
        {
            proof {
                if trim_dots(run).len() == ve - fd {
                    assert(run[ve - fd - 1] == tag@[ve - 1]);
                    assert(false);
                }
            }
            ve = ve - 1;
        }
        proof {
            if trim_dots(run).len() < ve - fd {
                assert(run[ve - fd - 1] == tag@[ve - 1]);
                assert(run[ve - fd - 1] == '.');
                assert(false);
            }
        }
        if ve == fd {
            return None;
        }
        let v = tag.substring_char(fd, ve);
        proof {
            assert(v@ =~= run.take((ve - fd) as int));
            assert(run.take((ve - fd) as int) == trim_dots(run));
        }
        Some(v.to_owned())
    }

    /// The display label of a tag, such as `dev-1.2.0` for `v1.2.0-dev`.
    pub fn format_tag_display(tag: &str) -> (r: String)
        ensures
            r@ == display_of(tag@),
    {
        if contains_str_ci(tag, "dev") {
            match Git::extract_version(tag) {
                Some(v) => {
                    let mut s = String::from_str("dev-");
                    s.append(v.as_str());
                    s
                },
                None => tag.to_owned(),
            }
        } else if contains_str_ci(tag, "qa") {
            match Git::extract_version(tag) {
                Some(v) => {
                    let mut s = String::from_str("qa-");
                    s.append(v.as_str());
                    s
                },
                None => tag.to_owned(),
            }
        } else {
            tag.to_owned()
        }
    }

    /// Whether some collected entry already uses the display label `lbl`.
    fn label_present(entries: &Vec<(String, String)>, lbl: &String) -> (r: bool)
        ensures
            r == label_in(entries_view(entries@), lbl@),
    {
        let n = entries.len();
        let mut j: usize = 0;
        while j < n
            invariant
                0 <= j <= n,
                n == entries@.len(),
                forall|k: int| 0 <= k < j ==> entries@[k].1@ != lbl@,
            decreases n - j,
        {
            let e = &entries[j];
            if e.1 == *lbl {
                assert(entries_view(entries@)[j as int].1 == lbl@);
                return true;
            }
            j = j + 1;
        }
        assert forall|i: int| 0 <= i < entries@.len() implies #[trigger] entries_view(
            entries@,
        )[i].1 != lbl@ by {
            assert(entries_view(entries@)[i].1 == entries@[i].1@);
        }
        false
    }

    /// The deduplicated, limited, display-ordered tag list derived from the
    /// raw (most recent first) tag-list output and the two special-branch
    /// probes: synthetic `dev`/`qa` entries first, then each tag containing
    /// `dev` or `qa` with its display label, the first tag per label kept.
    #[verifier::loop_isolation(false)]
    pub fn get_filtered_tags(output: &str, has_dev: bool, has_qa: bool, limit: usize) -> (r: Vec<
        (String, String),
    >)
        ensures
            entries_view(r@) == filtered_tags_spec(output@, has_dev, has_qa, limit as int),
            r@.len() <= limit,
            forall|i: int, j: int| 0 <= i < j < r@.len() ==> r@[i].1@ != r@[j].1@,
    {
        let mut r: Vec<(String, String)> = Vec::new();
        if has_dev && limit > 0 {
            r.push((String::from_str("BRANCH:dev"), String::from_str("dev-latest")));
        }
        if has_qa && r.len() < limit {
            r.push((String::from_str("BRANCH:qa"), String::from_str("qa-latest")));
        }
        proof {
            reveal_strlit("dev-latest");
            reveal_strlit("qa-latest");
            assert("dev-latest"@.len() == 10);
            assert("qa-latest"@.len() == 9);
            let seed0 = synth_entries(has_dev, has_qa);
            let seed = if seed0.len() <= limit as int {
                seed0
            } else {
                seed0.take(limit as int)
            };
            assert(entries_view(r@) =~= seed);
        }
        let ls = lines(output);
        let ghost lsv = ls@.map_values(|l: String| l@);
        let ghost target = filtered_tags_spec(output@, has_dev, has_qa, limit as int);
        proof {
            assert(lsv.skip(0) =~= lsv);
        }
        let n = ls.len();
        let mut i: usize = 0;
        while i < n
            invariant
                0 <= i <= n,
                n == ls@.len(),
                target == dedup_tags(candidates_of(lsv.skip(i as int)), entries_view(r@), limit as int),
                r@.len() <= limit,
                forall|p: int, q: int| 0 <= p < q < r@.len() ==> r@[p].1@ != r@[q].1@,
            decreases n - i,
        {
            let ghost rest = lsv.skip(i as int);
            proof {
                assert(rest[0] == lsv[i as int]);
                assert(lsv[i as int] == ls@[i as int]@);
                assert(rest.skip(1) =~= lsv.skip(i + 1));
            }
            let line = &ls[i];
            let t = trim(line.as_str());
            let ghost tv = trim_spec(lsv[i as int]);
            let is_cand = s_len(t) > 0 && (contains_str_ci(t, "dev") || contains_str_ci(t, "qa"));
            if is_cand {
                let ghost cands = candidates_of(rest);
                proof {
                    assert(cands == seq![tv] + candidates_of(lsv.skip(i + 1)));
                    assert(cands[0] == tv);
                    assert(cands.skip(1) =~= candidates_of(lsv.skip(i + 1)));
                }
                let disp = Git::format_tag_display(t);
                if r.len() < limit && !Git::label_present(&r, &disp) {
                    let ghost prev = r@;
                    let ghost dv = disp@;
                    let raw = t.to_owned();
                    r.push((raw, disp));
                    proof {
                        assert forall|idx: int| 0 <= idx < r@.len() implies #[trigger] entries_view(
                            r@,
                        )[idx] == entries_view(prev).push((tv, display_of(tv)))[idx] by {
                            assert(entries_view(r@)[idx] == (r@[idx].0@, r@[idx].1@));
                            if idx < prev.len() {
                                assert(r@[idx] == prev[idx]);
                                assert(entries_view(prev)[idx] == (prev[idx].0@, prev[idx].1@));
                            }
                        }
                        assert(entries_view(r@) =~= entries_view(prev).push(
                            (tv, display_of(tv)),
                        ));
                        assert forall|p: int| 0 <= p < prev.len() implies (#[trigger] prev[p]).1@
                            != dv by {
                            assert(entries_view(prev)[p].1 == prev[p].1@);
                        }
                        assert forall|p: int, q: int| 0 <= p < q < r@.len() implies (
                        #[trigger] r@[p]).1@ != (#[trigger] r@[q]).1@ by {
                            assert(r@[p] == prev[p]);
                            if q < prev.len() {
                                assert(r@[q] == prev[q]);
                            } else {
                                assert(r@[q].1@ == dv);
                            }
                        }
                    }
                }
            } else {
                proof {
                    assert(candidates_of(rest) == candidates_of(lsv.skip(i + 1)));
                }
            }
            i = i + 1;
        }
        proof {
            assert(lsv.skip(n as int) =~= Seq::<Seq<char>>::empty());
        }
        r
    }

    /// The first `limit` lines of the tag-list output, trimmed, empty
    /// lines dropped.
    #[verifier::loop_isolation(false)]
    pub fn get_tags(output: &str, limit: usize) -> (r: Vec<String>)
        ensures
            r@.map_values(|s: String| s@) == tags_of(lines_spec(output@), limit as int),
    {
        let ls = lines(output);
        let ghost lsv = ls@.map_values(|l: String| l@);
        let mut r: Vec<String> = Vec::new();
        let n = ls.len();
        proof {
            assert(lsv.skip(0) =~= lsv);
            assert(r@.map_values(|s: String| s@) + tags_of(lsv, limit as int) =~= tags_of(
                lsv,
                limit as int,
            ));
        }
        let mut i: usize = 0;
        while i < n && i < limit
            invariant
                0 <= i <= n,
                i <= limit,
                n == ls@.len(),
                tags_of(lsv, limit as int) == r@.map_values(|s: String| s@) + tags_of(
                    lsv.skip(i as int),
                    limit - i,
                ),
            decreases n - i,
        {
            let ghost rest = lsv.skip(i as int);
            proof {
                assert(rest[0] == ls@[i as int]@);
                assert(rest.skip(1) =~= lsv.skip(i + 1));
            }
            let line = &ls[i];
            let t = trim(line.as_str());
            if s_len(t) > 0 {
                r.push(t.to_owned());
                proof {
                    assert(r@.map_values(|s: String| s@) =~= r@.drop_last().map_values(
                        |s: String| s@,
                    ).push(trim_spec(rest[0])));
                }
            }
            i = i + 1;
        }
        proof {
            if i < n {
                assert(tags_of(lsv.skip(i as int), limit - i) == Seq::<Seq<char>>::empty());
            } else {
                assert(lsv.skip(i as int) =~= Seq::<Seq<char>>::empty());
            }
        }
        r
    }

    /// The remote branch list as the branch-list output gives it: one
    /// trimmed entry per line.
    #[verifier::loop_isolation(false)]
    pub fn remote_branch_list(output: &str) -> (r: Vec<String>)
        ensures
            r@.map_values(|s: String| s@) == lines_spec(output@).map_values(|l| trim_spec(l)),
    {
        let ls = lines(output);
        let ghost lsv = ls@.map_values(|l: String| l@);
        let mut r: Vec<String> = Vec::new();
        let n = ls.len();
        let mut i: usize = 0;
        while i < n
            invariant
                0 <= i <= n,
                n == ls@.len(),
                r@.map_values(|s: String| s@) =~= lsv.take(i as int).map_values(
                    |l: Seq<char>| trim_spec(l),
                ),
            decreases n - i,
        {
            let line = &ls[i];
            let t = trim(line.as_str());
            r.push(t.to_owned());
            proof {
                assert(r@.map_values(|s: String| s@) =~= r@.drop_last().map_values(
                    |s: String| s@,
                ).push(trim_spec(lsv[i as int])));
                assert(lsv.take(i + 1).map_values(|l: Seq<char>| trim_spec(l)) =~= lsv.take(
                    i as int,
                ).map_values(|l: Seq<char>| trim_spec(l)).push(trim_spec(lsv[i as int])));
            }
            i = i + 1;
        }
        proof {
            assert(lsv.take(n as int) =~= lsv);
        }
        r
    }

    /// Whether a branch of the given name exists in the remote branch
    /// list, matching each entry with its `origin/` prefixes removed,
    /// ASCII case ignored.
    pub fn has_remote_branch(branches: &Vec<String>, branch_name: &str) -> (r: bool)
        ensures
            r == exists|i: int|
                0 <= i < branches@.len() && branch_matches(branches@[i]@, branch_name@),
    {
        let n = branches.len();
        let mut i: usize = 0;
        while i < n
            invariant
                0 <= i <= n,
                n == branches@.len(),
                forall|k: int| 0 <= k < i ==> !branch_matches(branches@[k]@, branch_name@),
            decreases n - i,
        {
            let b = &branches[i];
            let normalized = remove_all(b.as_str(), "origin/");
            if eq_ignore_case(normalized.as_str(), branch_name) {
                assert(branch_matches(branches@[i as int]@, branch_name@));
                return true;
            }
            i = i + 1;
        }
        false
    }
}

/// One step of a remote-branch checkout: the sequence of subprocess
/// calls is fixed, but which call runs next depends on the previous
/// call's exit status. The caller runs the step's command, reports
/// whether it exited cleanly, and advances.
#[derive(Clone, Copy, Debug, PartialEq, Eq, Structural)]
pub enum CheckoutStep {
    /// Discard local changes (`reset --hard`); its outcome is ignored.
    Reset,
    /// Update remote refs (`fetch`); its outcome is ignored.
    Fetch,
    /// Check the branch out directly.
    Checkout,
    /// The direct checkout failed: create a local branch tracking the
    /// remote one.
    NewBranch,
    /// Both attempts failed: check the branch out once more.
    Retry,
    /// Pull, then finish with the recorded outcome; the pull's own
    /// outcome is ignored.
    Pull { success: bool },
    /// The checkout is over.
    Done { success: bool },
}

/// The step after `step` when its command exited cleanly iff `succeeded`.
/// A successful direct checkout pulls and succeeds. A checkout that only
/// worked through the tracking-branch fallback pulls but reports failure;
/// a retry that worked pulls and succeeds; when everything failed the
/// checkout is over with failure.
pub open spec fn checkout_next_spec(step: CheckoutStep, succeeded: bool) -> CheckoutStep {
    match step {
        CheckoutStep::Reset => CheckoutStep::Fetch,
        CheckoutStep::Fetch => CheckoutStep::Checkout,
        CheckoutStep::Checkout => if succeeded {
            CheckoutStep::Pull { success: true }
        } else {
            CheckoutStep::NewBranch
        },
        CheckoutStep::NewBranch => if succeeded {
            CheckoutStep::Pull { success: false }
        } else {
            CheckoutStep::Retry
        },
        CheckoutStep::Retry => if succeeded {
            CheckoutStep::Pull { success: true }
        } else {
            CheckoutStep::Done { success: false }
        },
        CheckoutStep::Pull { success } => CheckoutStep::Done { success },
        CheckoutStep::Done { success } => CheckoutStep::Done { success },
    }
}

/// The command a step runs, as arguments for the version-control binary;
/// none once the checkout is over.
pub open spec fn checkout_command_spec(step: CheckoutStep, branch: Seq<char>) -> Option<
    Seq<char>,
> {
    match step {
        CheckoutStep::Reset => Some("reset --hard"@),
        CheckoutStep::Fetch => Some("fetch"@),
        CheckoutStep::Checkout => Some("checkout "@ + branch),
        CheckoutStep::NewBranch => Some("checkout -b "@ + branch + " origin/"@ + branch),
        CheckoutStep::Retry => Some("checkout "@ + branch),
        CheckoutStep::Pull { .. } => Some("pull"@),
        CheckoutStep::Done { .. } => None,
    }
}

impl Git {
    /// Where a remote-branch checkout begins: with the reset when local
    /// changes are to be discarded, else with the fetch.
    pub fn checkout_start(discard_all: bool) -> (r: CheckoutStep)
        ensures
            r == (if discard_all {
                CheckoutStep::Reset
            } else {
                CheckoutStep::Fetch
            }),
    {
        if discard_all {
            CheckoutStep::Reset
        } else {
            CheckoutStep::Fetch
        }
    }

    /// Advance the checkout after its command exited cleanly iff
    /// `succeeded`.
    pub fn checkout_next(step: CheckoutStep, succeeded: bool) -> (r: CheckoutStep)
        ensures
            r == checkout_next_spec(step, succeeded),
    {
        match step {
            CheckoutStep::Reset => CheckoutStep::Fetch,
            CheckoutStep::Fetch => CheckoutStep::Checkout,
            CheckoutStep::Checkout => if succeeded {
                CheckoutStep::Pull { success: true }
            } else {
                CheckoutStep::NewBranch
            },
            CheckoutStep::NewBranch => if succeeded {
                CheckoutStep::Pull { success: false }
            } else {
                CheckoutStep::Retry
            },
            CheckoutStep::Retry => if succeeded {
                CheckoutStep::Pull { success: true }
            } else {
                CheckoutStep::Done { success: false }
            },
            CheckoutStep::Pull { success } => CheckoutStep::Done { success },
            CheckoutStep::Done { success } => CheckoutStep::Done { success },
        }
    }

    /// The command a step runs.
    pub fn checkout_command(step: CheckoutStep, branch: &str) -> (r: Option<String>)
        ensures
            match r {
                Some(c) => checkout_command_spec(step, branch@) == Some(c@),
                None => checkout_command_spec(step, branch@) is None,
            },
    {
        match step {
            CheckoutStep::Reset => Some(String::from_str("reset --hard")),
            CheckoutStep::Fetch => Some(String::from_str("fetch")),
            CheckoutStep::Checkout => {
                let mut c = String::from_str("checkout ");
                c.append(branch);
                Some(c)
            },
            CheckoutStep::NewBranch => {
                let mut c = String::from_str("checkout -b ");
                c.append(branch);
                c.append(" origin/");
                c.append(branch);
                Some(c)
            },
            CheckoutStep::Retry => {
                let mut c = String::from_str("checkout ");
                c.append(branch);
                Some(c)
            },
            CheckoutStep::Pull { .. } => Some(String::from_str("pull")),
            CheckoutStep::Done { .. } => None,
        }
    }
}

/// A remote-branch checkout succeeds exactly when the direct checkout
/// works, or when the direct and tracking-branch attempts both fail and
/// the retry works; a checkout reached only through the tracking-branch
/// fallback is reported as failed. `ok1`, `ok2`, `ok3` are the exit
/// outcomes of the three checkout attempts, `pull_ok` of whichever pull
/// runs; the pull's outcome never changes the result.
pub proof fn lemma_checkout_outcome(ok1: bool, ok2: bool, ok3: bool, pull_ok: bool)
    ensures
        ok1 ==> checkout_next_spec(checkout_next_spec(CheckoutStep::Checkout, ok1), pull_ok)
            == (CheckoutStep::Done { success: true }),
        !ok1 && ok2 ==> checkout_next_spec(
            checkout_next_spec(checkout_next_spec(CheckoutStep::Checkout, ok1), ok2),
            pull_ok,
        ) == (CheckoutStep::Done { success: false }),
        !ok1 && !ok2 && ok3 ==> checkout_next_spec(
            checkout_next_spec(
                checkout_next_spec(checkout_next_spec(CheckoutStep::Checkout, ok1), ok2),
                ok3,
            ),
            pull_ok,
        ) == (CheckoutStep::Done { success: true }),
        !ok1 && !ok2 && !ok3 ==> checkout_next_spec(
            checkout_next_spec(checkout_next_spec(CheckoutStep::Checkout, ok1), ok2),
            ok3,
        ) == (CheckoutStep::Done { success: false }),
{
}

/// The first `limit` lines, trimmed, with empty lines dropped: the tag
/// list a tag-listing call yields.
pub open spec fn tags_of(ls: Seq<Seq<char>>, limit: int) -> Seq<Seq<char>>
    decreases ls.len(),
{
    if ls.len() == 0 || limit <= 0 {
        Seq::empty()
    } else {
        let t = trim_spec(ls[0]);
        let rest = tags_of(ls.skip(1), limit - 1);
        if t.len() > 0 {
            seq![t] + rest
        } else {
            rest
        }
    }
}

} // verus!
