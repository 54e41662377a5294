use vstd::prelude::*;
use vstd::string::{StrSliceExecFns, StringExecFns};

verus! {

// ---------------------------------------------------------------------------
// Trimming the laid-out table, character by character
// ---------------------------------------------------------------------------

/// The characters the layout pads lines with, stripped from both ends of
/// every output line.
pub open spec fn is_blank(c: char) -> bool {
    c == ' ' || c == '\t' || c == '\r'
}

pub open spec fn trim_left(s: Seq<char>) -> Seq<char>
    decreases s.len(),
{
    if s.len() > 0 && is_blank(s[0]) {
        trim_left(s.skip(1))
    } else {
        s
    }
}

pub open spec fn trim_right(s: Seq<char>) -> Seq<char>
    decreases s.len(),
{
    if s.len() > 0 && is_blank(s.last()) {
        trim_right(s.drop_last())
    } else {
        s
    }
}

/// One line with the blanks stripped from both ends.
pub open spec fn trim_line(s: Seq<char>) -> Seq<char> {
    trim_right(trim_left(s))
}

/// One step of cutting a text at every newline.
pub open spec fn line_step(acc: (Seq<Seq<char>>, Seq<char>), c: char) -> (Seq<Seq<char>>, Seq<char>) {
    if c == '\n' {
        (acc.0.push(acc.1), Seq::empty())
    } else {
        (acc.0, acc.1.push(c))
    }
}

pub open spec fn line_scan(s: Seq<char>, n: int) -> (Seq<Seq<char>>, Seq<char>)
    decreases n,
{
    if n <= 0 {
        (Seq::empty(), Seq::empty())
    } else {
        line_step(line_scan(s, n - 1), s[n - 1])
    }
}

/// The segments of a text between its newlines, the part after the last
/// newline included.
pub open spec fn raw_lines(s: Seq<char>) -> Seq<Seq<char>> {
    line_scan(s, s.len() as int).0.push(line_scan(s, s.len() as int).1)
}

/// Empty lines at the tail are dropped, so the rendered answer ends in
/// exactly one newline.
pub open spec fn drop_blank_tail(ls: Seq<Seq<char>>) -> Seq<Seq<char>>
    decreases ls.len(),
{
    if ls.len() > 0 && ls.last().len() == 0 {
        drop_blank_tail(ls.drop_last())
    } else {
        ls
    }
}

/// The lines of the final answer: every raw line trimmed at both ends, the
/// empty tail dropped.
pub open spec fn trimmed_lines(raw: Seq<char>) -> Seq<Seq<char>> {
    drop_blank_tail(raw_lines(raw).map_values(|l: Seq<char>| trim_line(l)))
}

pub open spec fn join_lines(ls: Seq<Seq<char>>) -> Seq<char>
    decreases ls.len(),
{
    if ls.len() == 0 {
        Seq::empty()
    } else if ls.len() == 1 {
        ls[0]
    } else {
        join_lines(ls.drop_last()) + seq!['\n'] + ls.last()
    }
}

/// What the answer makes of a raw table layout: every line trimmed at both
/// ends, lines joined by single newlines, one newline appended.
pub open spec fn trimmed_table(raw: Seq<char>) -> Seq<char> {
    join_lines(trimmed_lines(raw)) + seq!['\n']
}

/// The output line format: the text ends in exactly one newline, and no
/// line starts or ends with a blank character.
pub open spec fn line_format_ok(r: Seq<char>) -> bool {
    &&& r.len() >= 1
    &&& r[r.len() - 1] == '\n'
    &&& (r.len() >= 2 ==> r[r.len() - 2] != '\n')
    &&& (r.len() >= 2 ==> !is_blank(r[0]))
    &&& forall|i: int| 0 <= i < r.len() - 1 && r[i + 1] == '\n' ==> !is_blank(#[trigger] r[i])
    &&& forall|i: int| 1 <= i < r.len() && r[i - 1] == '\n' ==> !is_blank(#[trigger] r[i])
}

// ---------------------------------------------------------------------------
// Lemmas on the trim and the join
// ---------------------------------------------------------------------------

spec fn nl_free(l: Seq<char>) -> bool {
    forall|j: int| 0 <= j < l.len() ==> #[trigger] l[j] != '\n'
}

proof fn lemma_trim_left_at(s: Seq<char>, k: int)
    requires
        0 <= k <= s.len(),
        forall|j: int| 0 <= j < k ==> is_blank(#[trigger] s[j]),
        k < s.len() ==> !is_blank(s[k]),
    ensures
        trim_left(s) == s.skip(k),
    decreases k,
{
    if k == 0 {
        assert(s.skip(0) =~= s);
    } else {
        assert(is_blank(s[0]));
        lemma_trim_left_at(s.skip(1), k - 1);
        assert(s.skip(1).skip(k - 1) =~= s.skip(k));
    }
}

proof fn lemma_trim_right_at(s: Seq<char>, k: int)
    requires
        0 <= k <= s.len(),
        forall|j: int| k <= j < s.len() ==> is_blank(#[trigger] s[j]),
        k > 0 ==> !is_blank(s[k - 1]),
    ensures
        trim_right(s) == s.take(k),
    decreases s.len() - k,
{
    if k == s.len() as int {
        if s.len() > 0 {
            assert(s.take(k) =~= s);
        } else {
            assert(s.take(0) =~= s);
        }
    } else {
        assert(is_blank(s.last()));
        lemma_trim_right_at(s.drop_last(), k);
        assert(s.drop_last().take(k) =~= s.take(k));
    }
}

proof fn lemma_trim_left_props(s: Seq<char>)
    ensures
        trim_left(s).len() > 0 ==> !is_blank(trim_left(s)[0]),
        nl_free(s) ==> nl_free(trim_left(s)),
        trim_left(s).len() <= s.len(),
    decreases s.len(),
{
    if s.len() > 0 && is_blank(s[0]) {
        lemma_trim_left_props(s.skip(1));
        if nl_free(s) {
            assert(forall|j: int|
                0 <= j < s.skip(1).len() ==> #[trigger] s.skip(1)[j] != '\n');
        }
    }
}

proof fn lemma_trim_right_props(s: Seq<char>)
    ensures
        trim_right(s).len() > 0 ==> !is_blank(trim_right(s).last()),
        trim_right(s).len() > 0 ==> trim_right(s)[0] == s[0],
        nl_free(s) ==> nl_free(trim_right(s)),
        trim_right(s).len() <= s.len(),
    decreases s.len(),
{
    if s.len() > 0 && is_blank(s.last()) {
        lemma_trim_right_props(s.drop_last());
        if nl_free(s) {
            assert(forall|j: int|
                0 <= j < s.drop_last().len() ==> #[trigger] s.drop_last()[j] != '\n');
        }
    }
}

/// A trimmed line neither starts nor ends with a blank, and stays free of
/// newlines when its raw line was.
proof fn lemma_trim_line_props(s: Seq<char>)
    ensures
        trim_line(s).len() > 0 ==> !is_blank(trim_line(s)[0]),
        trim_line(s).len() > 0 ==> !is_blank(trim_line(s).last()),
        nl_free(s) ==> nl_free(trim_line(s)),
{
    lemma_trim_left_props(s);
    lemma_trim_right_props(trim_left(s));
}

proof fn lemma_line_scan_nl_free(s: Seq<char>, n: int)
    requires
        0 <= n <= s.len(),
    ensures
        forall|k: int| 0 <= k < line_scan(s, n).0.len() ==> nl_free(#[trigger] line_scan(s, n).0[k]),
        nl_free(line_scan(s, n).1),
    decreases n,
{
    if n > 0 {
        lemma_line_scan_nl_free(s, n - 1);
        let prev = line_scan(s, n - 1);
        if s[n - 1] == '\n' {
            assert(forall|k: int|
                0 <= k < prev.0.push(prev.1).len() ==> nl_free(
                    #[trigger] prev.0.push(prev.1)[k],
                ));
        } else {
            assert(nl_free(prev.1.push(s[n - 1])));
        }
    }
}

/// The kept prefix of the dropped tail: same lines, the last one nonempty.
proof fn lemma_drop_blank_tail(ls: Seq<Seq<char>>)
    ensures
        drop_blank_tail(ls).len() <= ls.len(),
        forall|k: int|
            0 <= k < drop_blank_tail(ls).len() ==> #[trigger] drop_blank_tail(ls)[k] == ls[k],
        drop_blank_tail(ls).len() > 0 ==> drop_blank_tail(ls).last().len() > 0,
    decreases ls.len(),
{
    if ls.len() > 0 && ls.last().len() == 0 {
        lemma_drop_blank_tail(ls.drop_last());
    }
}

/// The boundary shape of joined lines: blanks never touch a newline, and
/// the text ends in the last line's text.
proof fn lemma_join_format(ls: Seq<Seq<char>>)
    requires
        forall|k: int| 0 <= k < ls.len() ==> nl_free(#[trigger] ls[k]),
        forall|k: int|
            0 <= k < ls.len() && (#[trigger] ls[k]).len() > 0 ==> !is_blank(ls[k][0]) && !is_blank(
                ls[k].last(),
            ),
    ensures
        ({
            let j = join_lines(ls);
            &&& j.len() > 0 ==> !is_blank(j[0])
            &&& j.len() > 0 ==> !is_blank(j[j.len() - 1])
            &&& (ls.len() > 0 && ls.last().len() > 0) ==> (j.len() > 0 && j[j.len() - 1] != '\n')
            &&& forall|i: int| 0 <= i < j.len() - 1 && j[i + 1] == '\n' ==> !is_blank(#[trigger] j[i])
            &&& forall|i: int| 1 <= i < j.len() && j[i - 1] == '\n' ==> !is_blank(#[trigger] j[i])
        }),
    decreases ls.len(),
{
    let j = join_lines(ls);
    if ls.len() == 0 {
    } else if ls.len() == 1 {
        assert(j == ls[0]);
        assert(nl_free(ls[0]));
        assert forall|i: int| 0 <= i < j.len() - 1 && j[i + 1] == '\n' implies !is_blank(
            #[trigger] j[i],
        ) by {
            assert(j[i + 1] != '\n');
        }
        assert forall|i: int| 1 <= i < j.len() && j[i - 1] == '\n' implies !is_blank(
            #[trigger] j[i],
        ) by {
            assert(j[i - 1] != '\n');
        }
    } else {
        let dl = ls.drop_last();
        let last = ls.last();
        assert(forall|k: int| 0 <= k < dl.len() ==> #[trigger] dl[k] == ls[k]);
        lemma_join_format(dl);
        let jd = join_lines(dl);
        let d = jd.len() as int;
        assert(j == jd + seq!['\n'] + last);
        assert(j.len() == d + 1 + last.len());
        assert(forall|i: int| 0 <= i < d ==> #[trigger] j[i] == jd[i]);
        assert(j[d] == '\n');
        assert(forall|i: int| d < i < j.len() ==> #[trigger] j[i] == last[i - d - 1]);
        assert(nl_free(last));
        // the first character
        if d > 0 {
            assert(j[0] == jd[0]);
        } else {
            assert(j[0] == '\n');
        }
        // the last character
        if last.len() > 0 {
            assert(j[j.len() - 1] == last[last.len() - 1]);
            assert(j[j.len() - 1] != '\n');
        } else {
            assert(j[j.len() - 1] == '\n');
        }
        // no blank before a newline
        assert forall|i: int| 0 <= i < j.len() - 1 && j[i + 1] == '\n' implies !is_blank(
            #[trigger] j[i],
        ) by {
            if i + 1 < d {
                assert(jd[i + 1] == '\n');
                assert(!is_blank(jd[i]));
            } else if i + 1 == d {
                assert(!is_blank(jd[jd.len() - 1]));
            } else {
                assert(j[i + 1] == last[i + 1 - d - 1]);
                assert(last[i + 1 - d - 1] != '\n');
                assert(false);
            }
        }
        // no blank after a newline
        assert forall|i: int| 1 <= i < j.len() && j[i - 1] == '\n' implies !is_blank(
            #[trigger] j[i],
        ) by {
            if i < d {
                assert(jd[i - 1] == '\n');
                assert(!is_blank(jd[i]));
            } else if i == d {
                assert(j[i] == '\n');
            } else if i - 1 == d {
                if last.len() > 0 {
                    assert(j[i] == last[0]);
                    assert(!is_blank(last[0]));
                } else {
                    assert(i >= j.len());
                }
            } else {
                assert(j[i - 1] == last[i - 1 - d - 1]);
                assert(last[i - 1 - d - 1] != '\n');
                assert(false);
            }
        }
    }
}

/// The trimmed table always has the output line format: one trailing
/// newline, no line starting or ending in a blank.
pub proof fn lemma_trimmed_table_format(raw: Seq<char>)
    ensures
        line_format_ok(trimmed_table(raw)),
{
    let rl = raw_lines(raw);
    let tl = rl.map_values(|l: Seq<char>| trim_line(l));
    let ls = trimmed_lines(raw);
    lemma_line_scan_nl_free(raw, raw.len() as int);
    assert forall|k: int| 0 <= k < rl.len() implies nl_free(#[trigger] rl[k]) by {
        if k < rl.len() - 1 {
            assert(rl[k] == line_scan(raw, raw.len() as int).0[k]);
        } else {
            assert(rl[k] == line_scan(raw, raw.len() as int).1);
        }
    }
    assert forall|k: int| 0 <= k < tl.len() implies nl_free(#[trigger] tl[k]) && (tl[k].len() > 0
        ==> !is_blank(tl[k][0]) && !is_blank(tl[k].last())) by {
        assert(tl[k] == trim_line(rl[k]));
        lemma_trim_line_props(rl[k]);
    }
    lemma_drop_blank_tail(tl);
    assert(forall|k: int| 0 <= k < ls.len() ==> #[trigger] ls[k] == tl[k]);
    lemma_join_format(ls);
    let j = join_lines(ls);
    let r = trimmed_table(raw);
    assert(r == j + seq!['\n']);
    assert(r.len() == j.len() + 1);
    assert(forall|i: int| 0 <= i < j.len() ==> #[trigger] r[i] == j[i]);
    assert(r[r.len() - 1] == '\n');
    if j.len() > 0 {
        assert(ls.len() > 0);
        assert(ls.last().len() > 0);
        assert(r[r.len() - 2] == j[j.len() - 1]);
    }
    assert forall|i: int| 0 <= i < r.len() - 1 && r[i + 1] == '\n' implies !is_blank(
        #[trigger] r[i],
    ) by {
        if i + 1 < j.len() {
            assert(j[i + 1] == '\n');
        } else {
            assert(i + 1 == j.len());
            assert(r[i] == j[j.len() - 1]);
        }
    }
    assert forall|i: int| 1 <= i < r.len() && r[i - 1] == '\n' implies !is_blank(
        #[trigger] r[i],
    ) by {
        if i < j.len() {
            assert(j[i - 1] == '\n');
        } else {
            assert(r[i] == '\n');
        }
    }
}

// ---------------------------------------------------------------------------
// The executable renderer
// ---------------------------------------------------------------------------

fn is_blank_char(c: char) -> (r: bool)
    ensures
        r == is_blank(c),
{
    c == ' ' || c == '\t' || c == '\r'
}

spec fn line_views(s: Seq<String>) -> Seq<Seq<char>> {
    s.map_values(|x: String| x@)
}

/// Cuts one raw line out and trims it at both ends.
fn trimmed_segment(s: &str, from: usize, to: usize) -> (r: String)
    requires
        from <= to <= s@.len(),
    ensures
        r@ == trim_line(s@.subrange(from as int, to as int)),
{
    let ghost seg = s@.subrange(from as int, to as int);
    let mut ts: usize = from;
    while ts < to && is_blank_char(s.get_char(ts))
        invariant
            from <= ts <= to <= s@.len(),
            seg == s@.subrange(from as int, to as int),
            forall|j: int| from <= j < ts ==> is_blank(#[trigger] s@[j]),
        decreases to - ts,
    {
        ts = ts + 1;
    }
    let mut te: usize = to;
    while te > ts && is_blank_char(s.get_char(te - 1))
        invariant
            ts <= te <= to,
            from <= ts,
            to <= s@.len(),
            seg == s@.subrange(from as int, to as int),
            forall|j: int| te <= j < to ==> is_blank(#[trigger] s@[j]),
        decreases te,
    {
        te = te - 1;
    }
    proof {
        assert(forall|j: int| 0 <= j < seg.len() ==> #[trigger] seg[j] == s@[from + j]);
        lemma_trim_left_at(seg, ts - from);
        assert(seg.skip(ts - from) =~= s@.subrange(ts as int, to as int));
        let mid = s@.subrange(ts as int, to as int);
        assert(forall|j: int| 0 <= j < mid.len() ==> #[trigger] mid[j] == s@[ts + j]);
        lemma_trim_right_at(mid, te - ts);
        assert(mid.take(te - ts) =~= s@.subrange(ts as int, te as int));
    }
    s.substring_char(ts, te).to_owned()
}

/// Lays the raw table text out as the final answer: every line trimmed at
/// both ends, empty tail lines dropped, lines joined by single newlines,
/// one newline appended.
pub fn trim_join(raw: &str) -> (r: String)
    ensures
        r@ == trimmed_table(raw@),
        line_format_ok(r@),
{
    let n: usize = raw.unicode_len();
    let mut lines: Vec<String> = Vec::new();
    let mut start: usize = 0;
    let mut i: usize = 0;
    proof {
        assert(line_views(lines@) =~= Seq::<Seq<char>>::empty());
        assert(raw@.subrange(0, 0) =~= Seq::<char>::empty());
    }
    while i < n
        invariant
            0 <= start <= i <= n,
            n == raw@.len(),
            line_views(lines@) == line_scan(raw@, i as int).0.map_values(
                |l: Seq<char>| trim_line(l),
            ),
            line_scan(raw@, i as int).1 == raw@.subrange(start as int, i as int),
        decreases n - i,
    {
        let c = raw.get_char(i);
        if c == '\n' {
            let ghost pre_lines = lines@;
            let ghost word_start = start as int;
            let w = trimmed_segment(raw, start, i);
            lines.push(w);
            start = i + 1;
            proof {
                assert(line_views(lines@) =~= line_views(pre_lines).push(trim_line(
                    raw@.subrange(word_start, i as int),
                )));
                assert(line_scan(raw@, i + 1).0.map_values(|l: Seq<char>| trim_line(l))
                    =~= line_scan(raw@, i as int).0.map_values(|l: Seq<char>| trim_line(l)).push(
                    trim_line(line_scan(raw@, i as int).1),
                ));
                assert(raw@.subrange(i + 1, i + 1) =~= Seq::<char>::empty());
            }
        } else {
            proof {
                assert(raw@.subrange(start as int, i as int).push(raw@[i as int])
                    =~= raw@.subrange(start as int, i + 1));
            }
        }
        i = i + 1;
    }
    let w = trimmed_segment(raw, start, n);
    lines.push(w);
    proof {
        assert(line_views(lines@) =~= raw_lines(raw@).map_values(|l: Seq<char>| trim_line(l)))
            by {
            assert(raw_lines(raw@).map_values(|l: Seq<char>| trim_line(l)) =~= line_scan(
                raw@,
                n as int,
            ).0.map_values(|l: Seq<char>| trim_line(l)).push(trim_line(line_scan(
                raw@,
                n as int,
            ).1)));
        }
    }
    let ghost all_trimmed = line_views(lines@);
    while lines.len() > 0 && lines[lines.len() - 1].as_str().is_empty()
        invariant
            drop_blank_tail(line_views(lines@)) == drop_blank_tail(all_trimmed),
        decreases lines@.len(),
    {
        let ghost pre = lines@;
        lines.pop();
        proof {
            assert(lines@ =~= pre.drop_last());
            assert(line_views(lines@) =~= line_views(pre).drop_last());
            assert(line_views(pre).last().len() == 0);
        }
    }
    proof {
        if lines@.len() > 0 {
            assert(line_views(lines@).last().len() > 0);
            assert(drop_blank_tail(line_views(lines@)) == line_views(lines@));
        } else {
            assert(line_views(lines@) =~= Seq::<Seq<char>>::empty());
            assert(drop_blank_tail(line_views(lines@)) == line_views(lines@));
        }
        assert(line_views(lines@) == trimmed_lines(raw@));
    }
    let mut out = String::new();
    let mut j: usize = 0;
    proof {
        assert(line_views(lines@).take(0) =~= Seq::<Seq<char>>::empty());
    }
    while j < lines.len()
        invariant
            0 <= j <= lines@.len(),
            line_views(lines@) == trimmed_lines(raw@),
            out@ == join_lines(line_views(lines@).take(j as int)),
        decreases lines@.len() - j,
    {
        proof {
            assert(line_views(lines@).take(j + 1).drop_last() =~= line_views(lines@).take(
                j as int,
            ));
            assert(line_views(lines@).take(j + 1).last() == lines@[j as int]@);
            reveal_strlit("\n");
            assert("\n"@ =~= seq!['\n']);
        }
        if j > 0 {
            out.append("\n");
        }
        out.append(lines[j].as_str());
        proof {
            if j == 0 {
                assert(out@ =~= line_views(lines@).take(1)[0]);
            }
        }
        j = j + 1;
    }
    proof {
        assert(line_views(lines@).take(lines@.len() as int) =~= line_views(lines@));
        reveal_strlit("\n");
        assert("\n"@ =~= seq!['\n']);
    }
    out.append("\n");
    proof {
        lemma_trimmed_table_format(raw@);
    }
    out
}

/// An empty layout renders as the single newline.
pub proof fn lemma_trimmed_table_empty()
    ensures
        trimmed_table(Seq::<char>::empty()) == seq!['\n'],
{
    let e = Seq::<char>::empty();
    assert(raw_lines(e) =~= seq![Seq::<char>::empty()]);
    assert(trim_line(Seq::<char>::empty()) =~= Seq::<char>::empty());
    let tl = raw_lines(e).map_values(|l: Seq<char>| trim_line(l));
    assert(tl.len() == 1);
    assert(tl[0] =~= Seq::<char>::empty());
    assert(tl.last().len() == 0);
    assert(tl.drop_last() =~= Seq::<Seq<char>>::empty());
    assert(drop_blank_tail(tl.drop_last()) =~= Seq::<Seq<char>>::empty());
    assert(drop_blank_tail(tl) == drop_blank_tail(tl.drop_last()));
    assert(trimmed_lines(e) =~= Seq::<Seq<char>>::empty());
    assert(join_lines(trimmed_lines(e)) =~= Seq::<char>::empty());
    assert(trimmed_table(e) =~= seq!['\n']);
}

} // verus!
