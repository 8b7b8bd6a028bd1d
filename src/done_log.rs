use vstd::prelude::*;
use crate::document::{join, lines, lemma_join_push};
use crate::task::{Task, TaskView, encode};
use crate::text::{chars_of, is_blank, push_all, same_chars, string_of};

verus! {

pub open spec fn log_title() -> Seq<char> {
    seq!['#', ' ', 'D', 'o', 'n', 'e', ' ', 'L', 'o', 'g']
}

pub open spec fn unknown_date() -> Seq<char> {
    seq!['u', 'n', 'k', 'n', 'o', 'w', 'n']
}

/// The lines kept from the top of an existing log: its title and the blank
/// line after it, or a fresh title and blank line where it has none.
pub open spec fn log_header(content: Seq<char>) -> Seq<Seq<char>> {
    let ls = lines(content);
    if ls.len() == 0 || ls[0] != log_title() {
        seq![log_title(), Seq::<char>::empty()]
    } else if ls.len() > 1 && ls[1].len() == 0 {
        seq![log_title(), Seq::<char>::empty()]
    } else {
        seq![log_title()]
    }
}

pub open spec fn views(v: Seq<Vec<char>>) -> Seq<Seq<char>> {
    v.map_values(|c: Vec<char>| c@)
}

/// The date a task is filed under.
pub open spec fn date_of(t: TaskView) -> Seq<char> {
    match t.done_date {
        Some(d) => d,
        None => unknown_date(),
    }
}

/// `a` comes before `b` in dictionary order.
pub open spec fn seq_less(a: Seq<char>, b: Seq<char>) -> bool {
    exists|i: int|
        0 <= i <= a.len() && i <= b.len() && a.take(i) == b.take(i) && ((i == a.len() && i
            < b.len()) || (i < a.len() && i < b.len() && a[i] < b[i]))
}

/// Each date comes after the next one in dictionary order: newest first.
pub open spec fn newest_first(ds: Seq<Seq<char>>) -> bool {
    forall|i: int| 0 <= i < ds.len() - 1 ==> seq_less(#[trigger] ds[i + 1], ds[i])
}

/// One archived line, with the date and the section it is filed under.
pub type LogEntry = (Seq<char>, Seq<char>, Seq<char>);

/// Where reading a log has got to: the date and section last seen, and the lines so far.
pub struct LogScan {
    pub date: Option<Seq<char>>,
    pub section: Option<Seq<char>>,
    pub entries: Seq<LogEntry>,
}

pub open spec fn is_date_heading(l: Seq<char>) -> bool {
    l.len() >= 3 && l[0] == '#' && l[1] == '#' && l[2] == ' '
}

pub open spec fn is_section_heading(l: Seq<char>) -> bool {
    l.len() >= 4 && l[0] == '#' && l[1] == '#' && l[2] == '#' && l[3] == ' '
}

/// `## date` opens a date, `### section` a section within it, and each other
/// non-blank line under both is an archived line.
pub open spec fn scan_step(st: LogScan, l: Seq<char>) -> LogScan {
    if is_date_heading(l) {
        LogScan { date: Some(l.skip(3)), section: None, entries: st.entries }
    } else if is_section_heading(l) {
        LogScan { date: st.date, section: Some(l.skip(4)), entries: st.entries }
    } else if !is_blank(l) && st.date is Some && st.section is Some {
        LogScan {
            date: st.date,
            section: st.section,
            entries: st.entries.push((st.date.unwrap(), st.section.unwrap(), l)),
        }
    } else {
        st
    }
}

pub open spec fn scan(ls: Seq<Seq<char>>) -> LogScan
    decreases ls.len(),
{
    if ls.len() == 0 {
        LogScan { date: None, section: None, entries: Seq::empty() }
    } else {
        scan_step(scan(ls.drop_last()), ls.last())
    }
}

/// The number of lines that [`log_header`] stands for.
pub open spec fn body_start(ls: Seq<Seq<char>>) -> int {
    if ls.len() == 0 || ls[0] != log_title() {
        0
    } else if ls.len() > 1 && ls[1].len() == 0 {
        2
    } else {
        1
    }
}

/// The archived lines that a log already holds.
pub open spec fn old_entries(content: Seq<char>) -> Seq<LogEntry> {
    scan(lines(content).skip(body_start(lines(content)))).entries
}

/// The archived lines for tasks taken from section `name`.
pub open spec fn new_entries(name: Seq<char>, ts: Seq<TaskView>) -> Seq<LogEntry> {
    ts.map_values(|t: TaskView| (date_of(t), name, encode(t)))
}

/// The sections filed under date `d`, in the order they first appear.
pub open spec fn sections_on(es: Seq<LogEntry>, d: Seq<char>) -> Seq<Seq<char>>
    decreases es.len(),
{
    if es.len() == 0 {
        Seq::empty()
    } else {
        let front = sections_on(es.drop_last(), d);
        if es.last().0 == d && !front.contains(es.last().1) {
            front.push(es.last().1)
        } else {
            front
        }
    }
}

/// The lines filed under date `d` and section `s`, in order.
pub open spec fn lines_on(es: Seq<LogEntry>, d: Seq<char>, s: Seq<char>) -> Seq<Seq<char>>
    decreases es.len(),
{
    if es.len() == 0 {
        Seq::empty()
    } else if es.last().0 == d && es.last().1 == s {
        lines_on(es.drop_last(), d, s).push(es.last().2)
    } else {
        lines_on(es.drop_last(), d, s)
    }
}

/// For each section: `### section`, its lines, a blank line.
pub open spec fn section_blocks(ss: Seq<Seq<char>>, es: Seq<LogEntry>, d: Seq<char>) -> Seq<char>
    decreases ss.len(),
{
    if ss.len() == 0 {
        Seq::empty()
    } else {
        section_blocks(ss.drop_last(), es, d) + seq!['#', '#', '#', ' '] + ss.last() + seq!['\n']
            + join(lines_on(es, d, ss.last())) + seq!['\n']
    }
}

/// `## date`, a blank line, then the blocks of its sections.
pub open spec fn date_block(d: Seq<char>, es: Seq<LogEntry>) -> Seq<char> {
    seq!['#', '#', ' '] + d + seq!['\n', '\n'] + section_blocks(sections_on(es, d), es, d)
}

pub open spec fn date_blocks(ds: Seq<Seq<char>>, es: Seq<LogEntry>) -> Seq<char>
    decreases ds.len(),
{
    if ds.len() == 0 {
        Seq::empty()
    } else {
        date_blocks(ds.drop_last(), es) + date_block(ds.last(), es)
    }
}

/// Each filed line shows under its date and its section.
pub proof fn lemma_entry_shown(es: Seq<LogEntry>, k: int)
    requires
        0 <= k < es.len(),
    ensures
        sections_on(es, es[k].0).contains(es[k].1),
        lines_on(es, es[k].0, es[k].1).contains(es[k].2),
    decreases es.len(),
{
    let front = es.drop_last();
    let e = es[k];
    if k == es.len() - 1 {
        let f = sections_on(front, e.0);
        if !f.contains(e.1) {
            assert(sections_on(es, e.0) == f.push(e.1));
            assert(f.push(e.1)[f.len() as int] == e.1);
        }
        let g = lines_on(front, e.0, e.1);
        assert(lines_on(es, e.0, e.1) == g.push(e.2));
        assert(g.push(e.2)[g.len() as int] == e.2);
    } else {
        assert(front[k] == e);
        lemma_entry_shown(front, k);
        let f = sections_on(front, e.0);
        let j = choose|j: int| 0 <= j < f.len() && f[j] == e.1;
        assert(sections_on(es, e.0)[j] == e.1);
        let g = lines_on(front, e.0, e.1);
        let i = choose|i: int| 0 <= i < g.len() && g[i] == e.2;
        assert(lines_on(es, e.0, e.1)[i] == e.2);
    }
}

/// -1, 0 or 1 as `a` comes before, equals or comes after `b`.
fn compare_chars(a: &Vec<char>, b: &Vec<char>) -> (r: i8)
    ensures
        r == -1 ==> seq_less(a@, b@),
        r == 0 ==> a@ == b@,
        r == 1 ==> seq_less(b@, a@),
        -1 <= r <= 1,
{
    let mut i: usize = 0;
    while i < a.len() && i < b.len() && a[i] == b[i]
        invariant
            i <= a.len(),
            i <= b.len(),
            a@.take(i as int) == b@.take(i as int),
        decreases a.len() - i,
    {
        proof {
            assert(a@.take(i + 1) =~= a@.take(i as int).push(a@[i as int]));
            assert(b@.take(i + 1) =~= b@.take(i as int).push(b@[i as int]));
        }
        i = i + 1;
    }
    if i < a.len() && i < b.len() {
        if a[i] < b[i] {
            proof {
                let w = i as int;
                assert(0 <= w <= a@.len() && w <= b@.len() && a@.take(w) == b@.take(w) && (w < a@.len() && w < b@.len() && a@[w] < b@[w]));
            }
            -1
        } else {
            proof {
                let w = i as int;
                assert(a@[w] != b@[w]);
                assert(b@[w] < a@[w]);
                assert(0 <= w <= b@.len() && w <= a@.len() && b@.take(w) == a@.take(w) && (w < b@.len() && w < a@.len() && b@[w] < a@[w]));
            }
            1
        }
    } else if i == a.len() && i < b.len() {
        proof {
            let w = i as int;
            assert(0 <= w <= a@.len() && w <= b@.len() && a@.take(w) == b@.take(w) && (w == a@.len() && w < b@.len()));
        }
        -1
    } else if i == b.len() && i < a.len() {
        proof {
            let w = i as int;
            assert(0 <= w <= b@.len() && w <= a@.len() && b@.take(w) == a@.take(w) && (w == b@.len() && w < a@.len()));
        }
        1
    } else {
        proof {
            assert(a@ =~= a@.take(i as int));
            assert(b@ =~= b@.take(i as int));
        }
        0
    }
}

fn contains_chars(v: &Vec<Vec<char>>, x: &Vec<char>) -> (r: bool)
    ensures
        r == views(v@).contains(x@),
{
    let ghost vv = views(v@);
    let mut i: usize = 0;
    while i < v.len()
        invariant
            i <= v.len(),
            vv == views(v@),
            forall|j: int| 0 <= j < i ==> vv[j] != x@,
        decreases v.len() - i,
    {
        if same_chars(&v[i], x) {
            proof {
                assert(vv[i as int] == x@);
            }
            return true;
        }
        i = i + 1;
    }
    false
}

/// Adds `x` to a newest-first list of distinct dates, where it is not there yet.
fn insert_date(v: &mut Vec<Vec<char>>, x: Vec<char>)
    requires
        newest_first(views(old(v)@)),
        views(old(v)@).no_duplicates(),
    ensures
        newest_first(views(final(v)@)),
        views(final(v)@).no_duplicates(),
        forall|d: Seq<char>|
            #[trigger] views(final(v)@).contains(d) <==> (views(old(v)@).contains(d) || d == x@),
{
    let ghost ov = views(v@);
    if contains_chars(v, &x) {
        return;
    }
    let mut p: usize = 0;
    let mut go = true;
    while go && p < v.len()
        invariant
            p <= v.len(),
            views(v@) == ov,
            !ov.contains(x@),
            forall|j: int| 0 <= j < p ==> seq_less(x@, #[trigger] ov[j]),
            !go ==> p < v.len() && seq_less(ov[p as int], x@),
        decreases v.len() - p + (if go { 1int } else { 0int }),
    {
        let c = compare_chars(&v[p], &x);
        proof {
            assert(ov[p as int] == v@[p as int]@);
        }
        if c == 1 {
            p = p + 1;
        } else {
            proof {
                if c == 0 {
                    assert(ov.contains(x@));
                }
            }
            go = false;
        }
    }
    let ghost xv = x@;
    v.insert(p, x);
    proof {
        let nv = views(v@);
        assert(nv =~= ov.insert(p as int, xv));
        assert forall|i: int| 0 <= i < nv.len() - 1 implies seq_less(#[trigger] nv[i + 1], nv[i]) by {
            if i + 1 < p {
                assert(nv[i + 1] == ov[i + 1] && nv[i] == ov[i]);
            } else if i + 1 == p {
                assert(nv[i] == ov[i]);
            } else if i == p {
                assert(nv[i + 1] == ov[p as int]);
                assert(!go);
            } else {
                assert(nv[i + 1] == ov[i] && nv[i] == ov[i - 1]);
                let k = i - 1;
                assert(seq_less(ov[k + 1], ov[k]));
            }
        }
        assert forall|a: int, b: int| 0 <= a < b < nv.len() implies nv[a] != nv[b] by {
            if a == p {
                assert(nv[b] == ov[b - 1]);
            } else if b == p {
                assert(nv[a] == ov[a]);
            } else {
                let oa = if a < p { a } else { a - 1 };
                let ob = if b < p { b } else { b - 1 };
                assert(nv[a] == ov[oa] && nv[b] == ov[ob]);
            }
        }
        assert forall|d: Seq<char>| #[trigger] nv.contains(d) <==> (ov.contains(d) || d == xv) by {
            if ov.contains(d) {
                let j = choose|j: int| 0 <= j < ov.len() && ov[j] == d;
                if j < p {
                    assert(nv[j] == d);
                } else {
                    assert(nv[j + 1] == d);
                }
            }
            if d == xv {
                assert(nv[p as int] == d);
            }
            if nv.contains(d) {
                let j = choose|j: int| 0 <= j < nv.len() && nv[j] == d;
                if j < p {
                    assert(ov[j] == d);
                } else if j > p {
                    assert(ov[j - 1] == d);
                }
            }
        }
    }
}

fn title_chars() -> (r: Vec<char>)
    ensures
        r@ == log_title(),
{
    let mut r: Vec<char> = Vec::new();
    r.push('#');
    r.push(' ');
    r.push('D');
    r.push('o');
    r.push('n');
    r.push('e');
    r.push(' ');
    r.push('L');
    r.push('o');
    r.push('g');
    proof {
        assert(r@ =~= log_title());
    }
    r
}

fn date_chars(t: &Task) -> (r: Vec<char>)
    ensures
        r@ == date_of(t@),
{
    match &t.done_date {
        Some(d) => chars_of(d.as_str()),
        None => {
            let mut r: Vec<char> = Vec::new();
            r.push('u');
            r.push('n');
            r.push('k');
            r.push('n');
            r.push('o');
            r.push('w');
            r.push('n');
            proof {
                assert(r@ =~= unknown_date());
            }
            r
        },
    }
}

fn emit_line(out: &mut Vec<char>, l: &Vec<char>)
    ensures
        final(out)@ == old(out)@ + l@ + seq!['\n'],
{
    push_all(out, l);
    out.push('\n');
    proof {
        assert(final(out)@ =~= old(out)@ + l@ + seq!['\n']);
    }
}

pub open spec fn entry_views(v: Seq<(Vec<char>, Vec<char>, Vec<char>)>) -> Seq<LogEntry> {
    v.map_values(|e: (Vec<char>, Vec<char>, Vec<char>)| (e.0@, e.1@, e.2@))
}

pub open spec fn opt_chars(o: Option<Vec<char>>) -> Option<Seq<char>> {
    match o {
        Some(v) => Some(v@),
        None => None,
    }
}

fn copy_chars(v: &Vec<char>) -> (r: Vec<char>)
    ensures
        r@ == v@,
{
    let r = crate::text::slice_of(v, 0, v.len());
    proof {
        assert(r@ =~= v@);
    }
    r
}

/// The archived lines of `ls` from line `start` on.
fn scan_log(ls: &Vec<Vec<char>>, start: usize) -> (r: Vec<(Vec<char>, Vec<char>, Vec<char>)>)
    requires
        start <= ls.len(),
    ensures
        entry_views(r@) == scan(views(ls@).skip(start as int)).entries,
{
    let ghost lv = views(ls@);
    let mut date: Option<Vec<char>> = None;
    let mut sec: Option<Vec<char>> = None;
    let mut out: Vec<(Vec<char>, Vec<char>, Vec<char>)> = Vec::new();
    let mut i: usize = start;
    proof {
        assert(lv.subrange(start as int, start as int) =~= Seq::<Seq<char>>::empty());
        assert(entry_views(out@) =~= Seq::<LogEntry>::empty());
    }
    while i < ls.len()
        invariant
            start <= i <= ls.len(),
            lv == views(ls@),
            opt_chars(date) == scan(lv.subrange(start as int, i as int)).date,
            opt_chars(sec) == scan(lv.subrange(start as int, i as int)).section,
            entry_views(out@) == scan(lv.subrange(start as int, i as int)).entries,
        decreases ls.len() - i,
    {
        let l = &ls[i];
        proof {
            assert(lv.subrange(start as int, i + 1).drop_last() =~= lv.subrange(start as int, i as int));
            assert(lv.subrange(start as int, i + 1).last() == l@);
        }
        let n = l.len();
        if n >= 3 && l[0] == '#' && l[1] == '#' && l[2] == ' ' {
            let d = crate::text::slice_of(l, 3, n);
            proof {
                assert(d@ =~= l@.skip(3));
            }
            date = Some(d);
            sec = None;
        } else if n >= 4 && l[0] == '#' && l[1] == '#' && l[2] == '#' && l[3] == ' ' {
            let t = crate::text::slice_of(l, 4, n);
            proof {
                assert(t@ =~= l@.skip(4));
            }
            sec = Some(t);
        } else if !crate::text::blank(l) {
            match (&date, &sec) {
                (Some(d), Some(t)) => {
                    let ghost before = out@;
                    out.push((copy_chars(d), copy_chars(t), copy_chars(l)));
                    proof {
                        assert(entry_views(out@) =~= entry_views(before).push((d@, t@, l@)));
                    }
                },
                _ => {},
            }
        }
        i = i + 1;
    }
    proof {
        assert(lv.subrange(start as int, ls.len() as int) =~= lv.skip(start as int));
    }
    out
}

/// The log after archiving `tasks` from the section `section_name`: the top
/// of `content` as [`log_header`] keeps it, then every archived line, old and
/// new, grouped by date, newest first, then by section in the order each first
/// appears; the lines of a date and section keep their order, the new ones last.
pub fn append_to_done(content: &str, section_name: &str, tasks: &Vec<(usize, Task)>) -> (r: String)
    ensures
        ({
            let merged = old_entries(content@) + new_entries(
                section_name@,
                tasks@.map_values(|p: (usize, Task)| p.1@),
            );
            exists|ds: Seq<Seq<char>>|
                {
                    &&& newest_first(ds)
                    &&& ds.no_duplicates()
                    &&& forall|d: Seq<char>|
                        #[trigger] ds.contains(d) <==> exists|k: int|
                            0 <= k < merged.len() && (#[trigger] merged[k]).0 == d
                    &&& r@ == join(log_header(content@)) + date_blocks(ds, merged)
                    &&& forall|k: int|
                        0 <= k < old_entries(content@).len() ==> {
                            let e = #[trigger] old_entries(content@)[k];
                            &&& ds.contains(e.0)
                            &&& sections_on(merged, e.0).contains(e.1)
                            &&& lines_on(merged, e.0, e.1).contains(e.2)
                        }
                }
        }),
{
    let ghost tv = tasks@.map_values(|p: (usize, Task)| p.1@);
    let c = chars_of(content);
    let ls = crate::document::split_lines(&c);
    let ghost lv = views(ls@);
    proof {
        assert(lv =~= lines(content@));
    }
    let title = title_chars();
    let has_title = ls.len() > 0 && same_chars(&ls[0], &title);
    let blank_second = has_title && ls.len() > 1 && ls[1].len() == 0;
    proof {
        if ls.len() > 0 {
            assert(lv[0] == ls@[0]@);
        }
        if ls.len() > 1 {
            assert(lv[1] == ls@[1]@);
        }
    }
    let start: usize = if !has_title { 0 } else if blank_second { 2 } else { 1 };
    let mut out: Vec<char> = Vec::new();
    emit_line(&mut out, &title);
    let empty: Vec<char> = Vec::new();
    proof {
        lemma_join_push(Seq::<Seq<char>>::empty(), log_title());
        assert(join(Seq::<Seq<char>>::empty()) =~= Seq::<char>::empty());
        assert(seq![log_title()] =~= Seq::<Seq<char>>::empty().push(log_title()));
    }
    if !has_title || blank_second {
        emit_line(&mut out, &empty);
        proof {
            lemma_join_push(seq![log_title()], Seq::<char>::empty());
            assert(seq![log_title(), Seq::<char>::empty()] =~= seq![log_title()].push(Seq::<char>::empty()));
        }
    }
    proof {
        if !has_title || blank_second {
            assert(log_header(content@) =~= seq![log_title(), Seq::<char>::empty()]);
        } else {
            assert(log_header(content@) =~= seq![log_title()]);
        }
        assert(start as int == body_start(lines(content@)));
    }
    let ghost head = out@;
    // every archived line: the old ones, then the new ones
    let mut all = scan_log(&ls, start);
    let ghost old_es = entry_views(all@);
    proof {
        assert(old_es == old_entries(content@));
    }
    let name = chars_of(section_name);
    let mut j: usize = 0;
    proof {
        assert(tv.take(0) =~= Seq::<TaskView>::empty());
        assert(old_es + new_entries(section_name@, tv.take(0)) =~= old_es);
    }
    while j < tasks.len()
        invariant
            j <= tasks.len(),
            tv == tasks@.map_values(|p: (usize, Task)| p.1@),
            name@ == section_name@,
            entry_views(all@) == old_es + new_entries(section_name@, tv.take(j as int)),
        decreases tasks.len() - j,
    {
        let t = &tasks[j].1;
        let ghost before = all@;
        all.push((date_chars(t), copy_chars(&name), t.line_chars()));
        proof {
            assert(tv[j as int] == t@);
            assert(new_entries(section_name@, tv.take(j + 1)) =~= new_entries(section_name@, tv.take(j as int)).push((date_of(t@), section_name@, encode(t@))));
            assert(entry_views(all@) =~= entry_views(before).push((date_of(t@), section_name@, encode(t@))));
        }
        j = j + 1;
    }
    proof {
        assert(tv.take(tasks.len() as int) =~= tv);
    }
    let ghost ev = entry_views(all@);
    // the dates, newest first
    let mut dates: Vec<Vec<char>> = Vec::new();
    let mut i: usize = 0;
    proof {
        assert(views(dates@) =~= Seq::<Seq<char>>::empty());
    }
    while i < all.len()
        invariant
            i <= all.len(),
            ev == entry_views(all@),
            newest_first(views(dates@)),
            views(dates@).no_duplicates(),
            forall|d: Seq<char>|
                #[trigger] views(dates@).contains(d) <==> exists|k: int|
                    0 <= k < i && (#[trigger] ev[k]).0 == d,
        decreases all.len() - i,
    {
        let d = copy_chars(&all[i].0);
        let ghost dv = d@;
        let ghost before = views(dates@);
        proof {
            assert(ev[i as int].0 == dv);
        }
        insert_date(&mut dates, d);
        proof {
            assert forall|x: Seq<char>|
                #[trigger] views(dates@).contains(x) <==> exists|k: int|
                    0 <= k < i + 1 && (#[trigger] ev[k]).0 == x by {
                if exists|k: int| 0 <= k < i + 1 && (#[trigger] ev[k]).0 == x {
                    let k = choose|k: int| 0 <= k < i + 1 && (#[trigger] ev[k]).0 == x;
                    if k < i {
                        assert(before.contains(x));
                    }
                }
            }
        }
        i = i + 1;
    }
    let ghost ds = views(dates@);
    let mut k: usize = 0;
    proof {
        assert(ds.take(0) =~= Seq::<Seq<char>>::empty());
        assert(out@ =~= head + date_blocks(ds.take(0), ev));
    }
    while k < dates.len()
        invariant
            k <= dates.len(),
            ds == views(dates@),
            ev == entry_views(all@),
            out@ == head + date_blocks(ds.take(k as int), ev),
        decreases dates.len() - k,
    {
        let ghost start_out = out@;
        let d = &dates[k];
        proof {
            assert(ds[k as int] == d@);
        }
        out.push('#');
        out.push('#');
        out.push(' ');
        push_all(&mut out, d);
        out.push('\n');
        out.push('\n');
        let ghost top = out@;
        proof {
            assert(top =~= start_out + (seq!['#', '#', ' '] + d@ + seq!['\n', '\n']));
        }
        // the sections of this date, in the order they first appear
        let mut secs: Vec<Vec<char>> = Vec::new();
        let mut q: usize = 0;
        proof {
            assert(ev.take(0) =~= Seq::<LogEntry>::empty());
            assert(views(secs@) =~= Seq::<Seq<char>>::empty());
        }
        while q < all.len()
            invariant
                q <= all.len(),
                ev == entry_views(all@),
                views(secs@) == sections_on(ev.take(q as int), d@),
            decreases all.len() - q,
        {
            proof {
                assert(ev.take(q + 1).drop_last() =~= ev.take(q as int));
                assert(ev.take(q + 1).last() == ev[q as int]);
                assert(ev[q as int] == (all@[q as int].0@, all@[q as int].1@, all@[q as int].2@));
            }
            if same_chars(&all[q].0, d) && !contains_chars(&secs, &all[q].1) {
                let ghost before = views(secs@);
                secs.push(copy_chars(&all[q].1));
                proof {
                    assert(views(secs@) =~= before.push(ev[q as int].1));
                }
            }
            q = q + 1;
        }
        proof {
            assert(ev.take(all.len() as int) =~= ev);
        }
        let ghost sv = views(secs@);
        let mut m: usize = 0;
        proof {
            assert(sv.take(0) =~= Seq::<Seq<char>>::empty());
            assert(out@ =~= top + section_blocks(sv.take(0), ev, d@));
        }
        while m < secs.len()
            invariant
                m <= secs.len(),
                sv == views(secs@),
                ev == entry_views(all@),
                out@ == top + section_blocks(sv.take(m as int), ev, d@),
            decreases secs.len() - m,
        {
            let ghost sec_start = out@;
            let sname = &secs[m];
            proof {
                assert(sv[m as int] == sname@);
            }
            out.push('#');
            out.push('#');
            out.push('#');
            out.push(' ');
            push_all(&mut out, sname);
            out.push('\n');
            let ghost mid = out@;
            let ghost mut lsq: Seq<Seq<char>> = Seq::empty();
            let mut q: usize = 0;
            proof {
                assert(lsq =~= lines_on(ev.take(0), d@, sname@));
                assert(join(lsq) =~= Seq::<char>::empty());
                assert(out@ =~= mid + join(lsq));
            }
            while q < all.len()
                invariant
                    q <= all.len(),
                    ev == entry_views(all@),
                    lsq == lines_on(ev.take(q as int), d@, sname@),
                    out@ == mid + join(lsq),
                decreases all.len() - q,
            {
                proof {
                    assert(ev.take(q + 1).drop_last() =~= ev.take(q as int));
                    assert(ev.take(q + 1).last() == ev[q as int]);
                    assert(ev[q as int] == (all@[q as int].0@, all@[q as int].1@, all@[q as int].2@));
                }
                if same_chars(&all[q].0, d) && same_chars(&all[q].1, sname) {
                    emit_line(&mut out, &all[q].2);
                    proof {
                        lemma_join_push(lsq, ev[q as int].2);
                        lsq = lsq.push(ev[q as int].2);
                        assert(out@ =~= mid + join(lsq));
                    }
                }
                q = q + 1;
            }
            out.push('\n');
            proof {
                assert(ev.take(all.len() as int) =~= ev);
                assert(sv.take(m + 1).drop_last() =~= sv.take(m as int));
                assert(sv.take(m + 1).last() == sname@);
                assert(out@ =~= top + section_blocks(sv.take(m + 1), ev, d@));
            }
            m = m + 1;
        }
        proof {
            assert(sv.take(secs.len() as int) =~= sv);
            assert(ds.take(k + 1).drop_last() =~= ds.take(k as int));
            assert(ds.take(k + 1).last() == d@);
            assert(out@ =~= start_out + date_block(d@, ev));
            assert(out@ =~= head + date_blocks(ds.take(k + 1), ev));
        }
        k = k + 1;
    }
    proof {
        assert(ds.take(dates.len() as int) =~= ds);
        assert forall|q: int| 0 <= q < old_es.len() implies {
            let e = #[trigger] old_es[q];
            &&& ds.contains(e.0)
            &&& sections_on(ev, e.0).contains(e.1)
            &&& lines_on(ev, e.0, e.1).contains(e.2)
        } by {
            assert(ev[q] == old_es[q]);
            lemma_entry_shown(ev, q);
            assert(ds.contains(ev[q].0));
        }
        let merged = old_entries(content@) + new_entries(section_name@, tv);
        assert(ev == merged);
        assert(out@ == join(log_header(content@)) + date_blocks(ds, merged));
    }
    string_of(&out)
}
} // verus!
