use vstd::prelude::*;
use crate::task::{Task, TaskView, decode, encode, round_trips, lemma_encode_decode, lemma_decode_encode};
use crate::text::{blank, chars_of, has_newline, is_blank, is_ws, is_ws_char, push_all, slice_of, string_of};

verus! {

/// One line of a section: a task, or a line kept as it was written.
#[derive(Debug)]
pub enum Entry {
    Task(Task),
    Line(String),
}

pub enum EntryView {
    Task(TaskView),
    Line(Seq<char>),
}

impl View for Entry {
    type V = EntryView;

    open spec fn view(&self) -> EntryView {
        match self {
            Entry::Task(t) => EntryView::Task(t@),
            Entry::Line(l) => EntryView::Line(l@),
        }
    }
}

/// A named group of entries under a `## ` heading.
#[derive(Debug)]
pub struct Section {
    pub name: String,
    pub entries: Vec<Entry>,
}

pub struct SectionView {
    pub name: Seq<char>,
    pub entries: Seq<EntryView>,
}

impl View for Section {
    type V = SectionView;

    open spec fn view(&self) -> SectionView {
        SectionView { name: self.name@, entries: self.entries@.map_values(|e: Entry| e@) }
    }
}

/// A whole document: the lines before the first heading, then the sections.
#[derive(Debug)]
pub struct TodoFile {
    pub sections: Vec<Section>,
    pub header_lines: Vec<String>,
}

pub struct DocView {
    pub header: Seq<Seq<char>>,
    pub sections: Seq<SectionView>,
}

impl View for TodoFile {
    type V = DocView;

    open spec fn view(&self) -> DocView {
        DocView {
            header: self.header_lines@.map_values(|s: String| s@),
            sections: self.sections@.map_values(|s: Section| s@),
        }
    }
}

// ---------------------------------------------------------------- lines

/// The lines completed so far, and the line still open, after reading `s`.
pub open spec fn split_nl(s: Seq<char>) -> (Seq<Seq<char>>, Seq<char>)
    decreases s.len(),
{
    if s.len() == 0 {
        (Seq::empty(), Seq::empty())
    } else {
        let (done, cur) = split_nl(s.drop_last());
        if s.last() == '\n' {
            (done.push(strip_cr(cur)), Seq::empty())
        } else {
            (done, cur.push(s.last()))
        }
    }
}

/// A line without the carriage return that ended it, if any.
pub open spec fn strip_cr(l: Seq<char>) -> Seq<char> {
    if ends_cr(l) {
        l.drop_last()
    } else {
        l
    }
}

pub open spec fn ends_cr(l: Seq<char>) -> bool {
    l.len() > 0 && l.last() == '\r'
}

/// The lines of `s`: split at each newline, dropping a carriage return just
/// before it; a final unterminated line counts as a line, as it stands.
pub open spec fn lines(s: Seq<char>) -> Seq<Seq<char>> {
    let (done, cur) = split_nl(s);
    if cur.len() == 0 {
        done
    } else {
        done.push(cur)
    }
}

/// Each line followed by a newline.
pub open spec fn join(ls: Seq<Seq<char>>) -> Seq<char>
    decreases ls.len(),
{
    if ls.len() == 0 {
        Seq::empty()
    } else {
        join(ls.drop_last()) + ls.last() + seq!['\n']
    }
}

// ---------------------------------------------------------------- parse

/// The place of the first non-whitespace character at or after `i`, or the length.
pub open spec fn skip_ws(l: Seq<char>, i: int) -> int
    decreases l.len() - i,
{
    if i < 0 || i >= l.len() {
        l.len() as int
    } else if is_ws(l[i]) {
        skip_ws(l, i + 1)
    } else {
        i
    }
}

/// `##`, at least one whitespace character, then a non-empty name.
pub open spec fn is_heading(l: Seq<char>) -> bool {
    &&& l.len() > 2 && l[0] == '#' && l[1] == '#' && is_ws(l[2])
    &&& (skip_ws(l, 2) < l.len() || l.len() >= 4)
}

/// The name of a heading: what follows the run of whitespace after `##`, or,
/// where the whitespace runs to the end, its last character.
pub open spec fn heading_name(l: Seq<char>) -> Seq<char> {
    if skip_ws(l, 2) < l.len() {
        l.skip(skip_ws(l, 2))
    } else {
        l.skip(l.len() - 1)
    }
}

/// A name that a heading line gives back as it is.
pub open spec fn name_ok(n: Seq<char>) -> bool {
    &&& n.len() > 0
    &&& !has_newline(n)
    &&& !ends_cr(n)
    &&& (!is_ws(n[0]) || n.len() == 1)
}

pub open spec fn heading_prefix() -> Seq<char> {
    seq!['#', '#', ' ']
}

pub open spec fn empty_section(name: Seq<char>) -> SectionView {
    SectionView { name, entries: Seq::empty() }
}

pub open spec fn with_entry(s: SectionView, e: EntryView) -> SectionView {
    SectionView { name: s.name, entries: s.entries.push(e) }
}

/// The document after reading one more line.
pub open spec fn parse_step(d: DocView, l: Seq<char>) -> DocView {
    if is_heading(l) {
        DocView { header: d.header, sections: d.sections.push(empty_section(heading_name(l))) }
    } else if d.sections.len() == 0 {
        DocView { header: d.header.push(l), sections: d.sections }
    } else {
        let last = d.sections.last();
        match decode(l) {
            Some(t) => DocView {
                header: d.header,
                sections: d.sections.update(
                    d.sections.len() - 1,
                    with_entry(last, EntryView::Task(t)),
                ),
            },
            None => if is_blank(l) {
                d
            } else {
                DocView {
                    header: d.header,
                    sections: d.sections.update(
                        d.sections.len() - 1,
                        with_entry(last, EntryView::Line(l)),
                    ),
                }
            },
        }
    }
}

pub open spec fn empty_doc() -> DocView {
    DocView { header: Seq::empty(), sections: Seq::empty() }
}

pub open spec fn parse_lines(ls: Seq<Seq<char>>) -> DocView
    decreases ls.len(),
{
    if ls.len() == 0 {
        empty_doc()
    } else {
        parse_step(parse_lines(ls.drop_last()), ls.last())
    }
}

/// The document that a text stands for.
pub open spec fn parse_text(s: Seq<char>) -> DocView {
    parse_lines(lines(s))
}

// ---------------------------------------------------------------- serialize

pub open spec fn entry_line(e: EntryView) -> Seq<char> {
    match e {
        EntryView::Task(t) => encode(t),
        EntryView::Line(l) => l,
    }
}

/// The heading, each entry's line, then one blank line.
pub open spec fn section_lines(s: SectionView) -> Seq<Seq<char>> {
    seq![heading_prefix() + s.name] + s.entries.map_values(|e: EntryView| entry_line(e)) + seq![
        Seq::<char>::empty(),
    ]
}

pub open spec fn sections_lines(ss: Seq<SectionView>) -> Seq<Seq<char>>
    decreases ss.len(),
{
    if ss.len() == 0 {
        Seq::empty()
    } else {
        sections_lines(ss.drop_last()) + section_lines(ss.last())
    }
}

pub open spec fn doc_lines(d: DocView) -> Seq<Seq<char>> {
    d.header + sections_lines(d.sections)
}

/// The text of a document.
pub open spec fn serialize(d: DocView) -> Seq<char> {
    join(doc_lines(d))
}

// ---------------------------------------------------------------- well-formedness

pub open spec fn wf_entry(e: EntryView) -> bool {
    match e {
        EntryView::Task(t) => round_trips(t),
        EntryView::Line(l) => !has_newline(l) && !ends_cr(l) && !is_heading(l) && decode(l) is None
            && !is_blank(l),
    }
}

pub open spec fn wf_section(s: SectionView) -> bool {
    &&& name_ok(s.name)
    &&& forall|j: int| 0 <= j < s.entries.len() ==> wf_entry(#[trigger] s.entries[j])
}

/// A document that reads back from its own text as itself.
pub open spec fn wf_doc(d: DocView) -> bool {
    &&& forall|i: int|
        0 <= i < d.header.len() ==> !has_newline(#[trigger] d.header[i]) && !ends_cr(d.header[i])
            && !is_heading(d.header[i])
    &&& forall|k: int| 0 <= k < d.sections.len() ==> wf_section(#[trigger] d.sections[k])
}

pub open spec fn no_newlines(ls: Seq<Seq<char>>) -> bool {
    forall|i: int| 0 <= i < ls.len() ==> !has_newline(#[trigger] ls[i])
}

/// No line ends with a carriage return.
pub open spec fn no_cr_ends(ls: Seq<Seq<char>>) -> bool {
    forall|i: int| 0 <= i < ls.len() ==> !ends_cr(#[trigger] ls[i])
}


// ---------------------------------------------------------------- laws

proof fn lemma_newline_concat(a: Seq<char>, b: Seq<char>)
    ensures
        has_newline(a + b) == (has_newline(a) || has_newline(b)),
{
    if has_newline(a) {
        let i = choose|i: int| 0 <= i < a.len() && a[i] == '\n';
        assert((a + b)[i] == '\n');
    }
    if has_newline(b) {
        let i = choose|i: int| 0 <= i < b.len() && b[i] == '\n';
        assert((a + b)[a.len() + i] == '\n');
    }
    if has_newline(a + b) {
        let i = choose|i: int| 0 <= i < (a + b).len() && (a + b)[i] == '\n';
        if i < a.len() {
            assert(a[i] == '\n');
        } else {
            assert(b[i - a.len()] == '\n');
        }
    }
}

proof fn lemma_split_no_nl(s: Seq<char>, x: Seq<char>)
    requires
        !has_newline(x),
    ensures
        split_nl(s + x) == (split_nl(s).0, split_nl(s).1 + x),
    decreases x.len(),
{
    if x.len() == 0 {
        assert(s + x =~= s);
        assert(split_nl(s).1 + x =~= split_nl(s).1);
    } else {
        let y = x.drop_last();
        assert(!has_newline(y)) by {
            if has_newline(y) {
                let i = choose|i: int| 0 <= i < y.len() && y[i] == '\n';
                assert(x[i] == '\n');
            }
        }
        lemma_split_no_nl(s, y);
        assert((s + x).drop_last() =~= s + y);
        assert((s + x).last() == x.last());
        assert(x.last() != '\n');
        assert((split_nl(s).1 + y).push(x.last()) =~= split_nl(s).1 + x);
    }
}

proof fn lemma_lines_join(ls: Seq<Seq<char>>)
    requires
        no_newlines(ls),
        no_cr_ends(ls),
    ensures
        split_nl(join(ls)) == (ls, Seq::<char>::empty()),
        lines(join(ls)) == ls,
    decreases ls.len(),
{
    if ls.len() > 0 {
        let front = ls.drop_last();
        assert(no_newlines(front)) by {
            assert forall|i: int| 0 <= i < front.len() implies !has_newline(#[trigger] front[i]) by {
                assert(front[i] == ls[i]);
            }
        }
        assert forall|i: int| 0 <= i < front.len() implies !ends_cr(#[trigger] front[i]) by {
            assert(front[i] == ls[i]);
        }
        lemma_lines_join(front);
        let x = ls.last();
        assert(!has_newline(ls[ls.len() - 1]));
        assert(!ends_cr(ls[ls.len() - 1]));
        assert(strip_cr(x) == x);
        lemma_split_no_nl(join(front), x);
        let j = join(front) + x;
        assert(join(ls) == j.push('\n')) by {
            assert(j + seq!['\n'] =~= j.push('\n'));
        }
        assert(j.push('\n').drop_last() =~= j);
        assert(Seq::<char>::empty() + x =~= x);
        assert(front.push(x) =~= ls);
    }
}

proof fn lemma_split_clean(s: Seq<char>)
    ensures
        no_newlines(split_nl(s).0),
        !has_newline(split_nl(s).1),
        no_newlines(lines(s)),
    decreases s.len(),
{
    if s.len() > 0 {
        lemma_split_clean(s.drop_last());
        let (done, cur) = split_nl(s.drop_last());
        if s.last() == '\n' {
            assert forall|i: int| 0 <= i < done.push(cur).len() implies !has_newline(
                #[trigger] done.push(cur)[i],
            ) by {
                if i < done.len() {
                    assert(done.push(cur)[i] == done[i]);
                }
            }
        } else {
            lemma_newline_concat(cur, seq![s.last()]);
            assert(cur + seq![s.last()] =~= cur.push(s.last()));
        }
    }
    let (done, cur) = split_nl(s);
    if cur.len() > 0 {
        assert forall|i: int| 0 <= i < done.push(cur).len() implies !has_newline(
            #[trigger] done.push(cur)[i],
        ) by {
            if i < done.len() {
                assert(done.push(cur)[i] == done[i]);
            }
        }
    }
}

pub proof fn lemma_parse_push(ls: Seq<Seq<char>>, x: Seq<char>)
    ensures
        parse_lines(ls.push(x)) == parse_step(parse_lines(ls), x),
{
    assert(ls.push(x).drop_last() =~= ls);
}

proof fn lemma_skip_ws(l: Seq<char>, i: int)
    requires
        0 <= i,
    ensures
        i <= skip_ws(l, i) <= l.len() || (i > l.len() && skip_ws(l, i) == l.len()),
        skip_ws(l, i) < l.len() ==> !is_ws(l[skip_ws(l, i)]),
    decreases l.len() - i,
{
    if i < l.len() && is_ws(l[i]) {
        lemma_skip_ws(l, i + 1);
    }
}

proof fn lemma_heading_name(l: Seq<char>)
    requires
        is_heading(l),
        !has_newline(l),
        !ends_cr(l),
    ensures
        name_ok(heading_name(l)),
{
    lemma_skip_ws(l, 2);
    let n = heading_name(l);
    let k = if skip_ws(l, 2) < l.len() { skip_ws(l, 2) } else { l.len() - 1 };
    assert(n =~= l.skip(k));
    assert(n.last() == l.last());
    assert forall|i: int| 0 <= i < n.len() implies n[i] != '\n' by {
        assert(n[i] == l[i + k]);
    }
}

proof fn lemma_heading_line(name: Seq<char>)
    requires
        name_ok(name),
    ensures
        is_heading(heading_prefix() + name),
        heading_name(heading_prefix() + name) == name,
{
    let hl = heading_prefix() + name;
    assert(hl[2] == ' ');
    assert(is_ws(hl[2]));
    assert(hl[3] == name[0]);
    assert(skip_ws(hl, 2) == skip_ws(hl, 3));
    if !is_ws(name[0]) {
        assert(skip_ws(hl, 3) == 3);
    } else {
        assert(skip_ws(hl, 3) == skip_ws(hl, 4));
        assert(skip_ws(hl, 4) == 4);
    }
    assert(hl.skip(3) =~= name);
}

proof fn lemma_parse_wf(ls: Seq<Seq<char>>)
    requires
        no_newlines(ls),
        no_cr_ends(ls),
    ensures
        wf_doc(parse_lines(ls)),
    decreases ls.len(),
{
    if ls.len() > 0 {
        let front = ls.drop_last();
        assert forall|i: int| 0 <= i < front.len() implies !has_newline(#[trigger] front[i]) by {
            assert(front[i] == ls[i]);
        }
        assert forall|i: int| 0 <= i < front.len() implies !ends_cr(#[trigger] front[i]) by {
            assert(front[i] == ls[i]);
        }
        lemma_parse_wf(front);
        let d = parse_lines(front);
        let l = ls.last();
        assert(!has_newline(ls[ls.len() - 1]));
        assert(!ends_cr(ls[ls.len() - 1]));
        let r = parse_step(d, l);
        if is_heading(l) {
            let name = heading_name(l);
            lemma_heading_name(l);
            assert(wf_section(empty_section(name)));
            assert forall|k: int| 0 <= k < r.sections.len() implies wf_section(
                #[trigger] r.sections[k],
            ) by {
                if k < d.sections.len() {
                    assert(r.sections[k] == d.sections[k]);
                }
            }
        } else if d.sections.len() == 0 {
            assert forall|i: int| 0 <= i < r.header.len() implies !has_newline(
                #[trigger] r.header[i],
            ) && !is_heading(r.header[i]) by {
                if i < d.header.len() {
                    assert(r.header[i] == d.header[i]);
                }
            }
        } else {
            let last = d.sections.last();
            assert(wf_section(d.sections[d.sections.len() - 1]));
            let e = match decode(l) {
                Some(t) => EntryView::Task(t),
                None => EntryView::Line(l),
            };
            if decode(l) is Some {
                lemma_encode_decode(l);
            }
            if !(decode(l) is None && is_blank(l)) {
                let ns = with_entry(last, e);
                assert(wf_section(ns)) by {
                    assert forall|j: int| 0 <= j < ns.entries.len() implies wf_entry(
                        #[trigger] ns.entries[j],
                    ) by {
                        if j < last.entries.len() {
                            assert(ns.entries[j] == last.entries[j]);
                        }
                    }
                }
                assert forall|k: int| 0 <= k < r.sections.len() implies wf_section(
                    #[trigger] r.sections[k],
                ) by {
                    if k < d.sections.len() - 1 {
                        assert(r.sections[k] == d.sections[k]);
                    }
                }
            }
        }
    }
}

proof fn lemma_encode_clean(t: TaskView)
    requires
        round_trips(t),
    ensures
        !has_newline(encode(t)),
        !is_heading(encode(t)),
        !ends_cr(encode(t)),
        decode(encode(t)) == Some(t),
{
    lemma_decode_encode(t);
    let l = encode(t);
    assert(crate::task::is_task_line(l));
    let rest = l.skip(6);
    assert forall|i: int| 0 <= i < l.len() implies l[i] != '\n' by {
        if i >= 6 {
            assert(rest[i - 6] == l[i]);
        }
    }
    assert(l[0] == '-');
}

proof fn lemma_parse_entries(p1: Seq<Seq<char>>, d0: DocView, sec: SectionView, j: int)
    requires
        wf_section(sec),
        0 <= j <= sec.entries.len(),
        parse_lines(p1) == (DocView {
            header: d0.header,
            sections: d0.sections.push(empty_section(sec.name)),
        }),
    ensures
        parse_lines(p1 + sec.entries.map_values(|e: EntryView| entry_line(e)).take(j)) == (DocView {
            header: d0.header,
            sections: d0.sections.push(SectionView { name: sec.name, entries: sec.entries.take(j) }),
        }),
    decreases j,
{
    let es = sec.entries.map_values(|e: EntryView| entry_line(e));
    if j == 0 {
        assert(p1 + es.take(0) =~= p1);
        assert(sec.entries.take(0) =~= Seq::<EntryView>::empty());
    } else {
        lemma_parse_entries(p1, d0, sec, j - 1);
        let q = p1 + es.take(j - 1);
        assert(p1 + es.take(j) =~= q.push(es[j - 1]));
        lemma_parse_push(q, es[j - 1]);
        let dq = parse_lines(q);
        let e = sec.entries[j - 1];
        assert(wf_entry(e));
        match e {
            EntryView::Task(t) => {
                lemma_encode_clean(t);
            },
            EntryView::Line(l) => {},
        }
        let cur = SectionView { name: sec.name, entries: sec.entries.take(j - 1) };
        assert(dq.sections.last() == cur);
        assert(with_entry(cur, e).entries =~= sec.entries.take(j));
        assert(parse_step(dq, es[j - 1]).sections =~= d0.sections.push(
            SectionView { name: sec.name, entries: sec.entries.take(j) },
        ));
    }
}

proof fn lemma_parse_section(p: Seq<Seq<char>>, sec: SectionView)
    requires
        wf_section(sec),
    ensures
        parse_lines(p + section_lines(sec)) == (DocView {
            header: parse_lines(p).header,
            sections: parse_lines(p).sections.push(sec),
        }),
{
    let d0 = parse_lines(p);
    let hl = heading_prefix() + sec.name;
    let es = sec.entries.map_values(|e: EntryView| entry_line(e));
    let p1 = p.push(hl);
    lemma_parse_push(p, hl);
    lemma_heading_line(sec.name);
    lemma_parse_entries(p1, d0, sec, sec.entries.len() as int);
    assert(es.take(es.len() as int) =~= es);
    assert(sec.entries.take(sec.entries.len() as int) =~= sec.entries);
    let q = p1 + es;
    assert(p + section_lines(sec) =~= q.push(Seq::<char>::empty()));
    lemma_parse_push(q, Seq::<char>::empty());
    assert(is_blank(Seq::<char>::empty()));
}

proof fn lemma_parse_header(h: Seq<Seq<char>>, i: int)
    requires
        0 <= i <= h.len(),
        forall|k: int| 0 <= k < h.len() ==> !is_heading(#[trigger] h[k]),
    ensures
        parse_lines(h.take(i)) == (DocView { header: h.take(i), sections: Seq::empty() }),
    decreases i,
{
    if i == 0 {
        assert(h.take(0) =~= Seq::<Seq<char>>::empty());
    } else {
        lemma_parse_header(h, i - 1);
        assert(h.take(i) =~= h.take(i - 1).push(h[i - 1]));
        lemma_parse_push(h.take(i - 1), h[i - 1]);
    }
}

proof fn lemma_parse_sections(d: DocView, k: int)
    requires
        wf_doc(d),
        0 <= k <= d.sections.len(),
    ensures
        parse_lines(d.header + sections_lines(d.sections.take(k))) == (DocView {
            header: d.header,
            sections: d.sections.take(k),
        }),
    decreases k,
{
    let h = d.header;
    let ss = d.sections;
    if k == 0 {
        assert(h + sections_lines(ss.take(0)) =~= h);
        assert forall|i: int| 0 <= i < h.len() implies !is_heading(#[trigger] h[i]) by {}
        lemma_parse_header(h, h.len() as int);
        assert(h.take(h.len() as int) =~= h);
        assert(ss.take(0) =~= Seq::<SectionView>::empty());
    } else {
        lemma_parse_sections(d, k - 1);
        assert(ss.take(k).drop_last() =~= ss.take(k - 1));
        assert(sections_lines(ss.take(k)) == sections_lines(ss.take(k - 1)) + section_lines(
            ss[k - 1],
        ));
        assert(h + sections_lines(ss.take(k)) =~= (h + sections_lines(ss.take(k - 1)))
            + section_lines(ss[k - 1]));
        assert(wf_section(ss[k - 1]));
        lemma_parse_section(h + sections_lines(ss.take(k - 1)), ss[k - 1]);
        assert(ss.take(k - 1).push(ss[k - 1]) =~= ss.take(k));
    }
}

proof fn lemma_parse_doc_lines(d: DocView)
    requires
        wf_doc(d),
    ensures
        parse_lines(doc_lines(d)) == d,
{
    lemma_parse_sections(d, d.sections.len() as int);
    assert(d.sections.take(d.sections.len() as int) =~= d.sections);
}

proof fn lemma_no_newlines_concat(a: Seq<Seq<char>>, b: Seq<Seq<char>>)
    requires
        no_newlines(a),
        no_newlines(b),
    ensures
        no_newlines(a + b),
{
    assert forall|i: int| 0 <= i < (a + b).len() implies !has_newline(#[trigger] (a + b)[i]) by {
        if i < a.len() {
            assert((a + b)[i] == a[i]);
        } else {
            assert((a + b)[i] == b[i - a.len()]);
        }
    }
}

proof fn lemma_no_cr_concat(a: Seq<Seq<char>>, b: Seq<Seq<char>>)
    requires
        no_cr_ends(a),
        no_cr_ends(b),
    ensures
        no_cr_ends(a + b),
{
    assert forall|i: int| 0 <= i < (a + b).len() implies !ends_cr(#[trigger] (a + b)[i]) by {
        if i < a.len() {
            assert((a + b)[i] == a[i]);
        } else {
            assert((a + b)[i] == b[i - a.len()]);
        }
    }
}

proof fn lemma_sections_clean(ss: Seq<SectionView>)
    requires
        forall|k: int| 0 <= k < ss.len() ==> wf_section(#[trigger] ss[k]),
    ensures
        no_newlines(sections_lines(ss)),
        no_cr_ends(sections_lines(ss)),
    decreases ss.len(),
{
    if ss.len() > 0 {
        let front = ss.drop_last();
        assert forall|k: int| 0 <= k < front.len() implies wf_section(#[trigger] front[k]) by {
            assert(front[k] == ss[k]);
        }
        lemma_sections_clean(front);
        let sec = ss.last();
        assert(wf_section(ss[ss.len() - 1]));
        let es = sec.entries.map_values(|e: EntryView| entry_line(e));
        lemma_newline_concat(heading_prefix(), sec.name);
        assert(!has_newline(heading_prefix()));
        assert forall|j: int| 0 <= j < es.len() implies !has_newline(#[trigger] es[j]) by {
            assert(wf_entry(sec.entries[j]));
            match sec.entries[j] {
                EntryView::Task(t) => {
                    lemma_encode_clean(t);
                },
                EntryView::Line(l) => {},
            }
        }
        assert forall|j: int| 0 <= j < es.len() implies !ends_cr(#[trigger] es[j]) by {
            assert(wf_entry(sec.entries[j]));
            match sec.entries[j] {
                EntryView::Task(t) => {
                    lemma_encode_clean(t);
                },
                EntryView::Line(l) => {},
            }
        }
        let hd = seq![heading_prefix() + sec.name];
        assert((heading_prefix() + sec.name).last() == sec.name.last());
        assert(no_newlines(hd));
        assert(no_cr_ends(hd));
        let tl = seq![Seq::<char>::empty()];
        assert(no_newlines(tl));
        assert(no_cr_ends(tl));
        lemma_no_newlines_concat(hd, es);
        lemma_no_newlines_concat(hd + es, tl);
        lemma_no_newlines_concat(sections_lines(front), section_lines(sec));
        lemma_no_cr_concat(hd, es);
        lemma_no_cr_concat(hd + es, tl);
        lemma_no_cr_concat(sections_lines(front), section_lines(sec));
    }
}

/// A well-formed document reads back from its text with the same header,
/// the same sections in the same order, and the same entries in each.
pub proof fn lemma_parse_serialize(d: DocView)
    requires
        wf_doc(d),
    ensures
        parse_text(serialize(d)) == d,
{
    lemma_sections_clean(d.sections);
    lemma_no_newlines_concat(d.header, sections_lines(d.sections));
    lemma_no_cr_concat(d.header, sections_lines(d.sections));
    lemma_lines_join(doc_lines(d));
    lemma_parse_doc_lines(d);
}

/// Every parsed document whose lines do not end with a carriage return is well-formed.
pub proof fn lemma_parse_wf_text(s: Seq<char>)
    requires
        no_cr_ends(lines(s)),
    ensures
        wf_doc(parse_text(s)),
{
    lemma_split_clean(s);
    lemma_parse_wf(lines(s));
}

/// After one pass of parsing and writing, the text is stable, for every text
/// none of whose lines still ends with a carriage return once split.
pub proof fn lemma_serialize_idempotent(s: Seq<char>)
    requires
        no_cr_ends(lines(s)),
    ensures
        serialize(parse_text(serialize(parse_text(s)))) == serialize(parse_text(s)),
{
    lemma_parse_wf_text(s);
    lemma_parse_serialize(parse_text(s));
}


// ---------------------------------------------------------------- lookup

/// `a` and `b` are the same character once ASCII letters are folded to one case.
pub open spec fn same_letter(a: char, b: char) -> bool {
    a == b || ('A' <= a && a <= 'Z' && b as u32 == a as u32 + 32) || ('A' <= b && b <= 'Z'
        && a as u32 == b as u32 + 32)
}

/// Section names match when they are equal up to the case of ASCII letters.
pub open spec fn names_match(a: Seq<char>, b: Seq<char>) -> bool {
    a.len() == b.len() && forall|i: int| 0 <= i < a.len() ==> same_letter(#[trigger] a[i], b[i])
}

/// The tasks among the entries, in order.
pub open spec fn tasks_of(es: Seq<EntryView>) -> Seq<TaskView>
    decreases es.len(),
{
    if es.len() == 0 {
        Seq::empty()
    } else {
        match es.last() {
            EntryView::Task(t) => tasks_of(es.drop_last()).push(t),
            EntryView::Line(_) => tasks_of(es.drop_last()),
        }
    }
}

/// The index of the first section whose name matches `name`.
pub open spec fn first_match(ss: Seq<SectionView>, name: Seq<char>, i: int) -> bool {
    &&& 0 <= i < ss.len()
    &&& names_match(ss[i].name, name)
    &&& forall|j: int| 0 <= j < i ==> !names_match(#[trigger] ss[j].name, name)
}

pub open spec fn no_match(ss: Seq<SectionView>, name: Seq<char>) -> bool {
    forall|j: int| 0 <= j < ss.len() ==> !names_match(#[trigger] ss[j].name, name)
}

pub proof fn lemma_join_push(ls: Seq<Seq<char>>, x: Seq<char>)
    ensures
        join(ls.push(x)) == join(ls) + x + seq!['\n'],
{
    assert(ls.push(x).drop_last() =~= ls);
}

fn same_letter_char(a: char, b: char) -> (r: bool)
    ensures
        r == same_letter(a, b),
{
    a == b || ('A' <= a && a <= 'Z' && (b as u32) == (a as u32) + 32) || ('A' <= b && b <= 'Z'
        && (a as u32) == (b as u32) + 32)
}

fn names_match_chars(a: &Vec<char>, b: &Vec<char>) -> (r: bool)
    ensures
        r == names_match(a@, b@),
{
    if a.len() != b.len() {
        return false;
    }
    let mut i: usize = 0;
    while i < a.len()
        invariant
            i <= a.len(),
            a.len() == b.len(),
            forall|j: int| 0 <= j < i ==> same_letter(#[trigger] a@[j], b@[j]),
        decreases a.len() - i,
    {
        if !same_letter_char(a[i], b[i]) {
            return false;
        }
        i = i + 1;
    }
    true
}

/// Writes `l` and a newline.
fn emit(out: &mut Vec<char>, l: &Vec<char>)
    ensures
        final(out)@ == old(out)@ + l@ + seq!['\n'],
{
    push_all(out, l);
    out.push('\n');
    proof {
        assert(final(out)@ =~= old(out)@ + l@ + seq!['\n']);
    }
}

impl Entry {
    pub fn line_chars(&self) -> (r: Vec<char>)
        ensures
            r@ == entry_line(self@),
    {
        match self {
            Entry::Task(t) => t.line_chars(),
            Entry::Line(l) => chars_of(l.as_str()),
        }
    }
}

impl Section {
    /// A section with the given name and no entries.
    pub fn new(name: String) -> (r: Section)
        ensures
            r@ == empty_section(name@),
    {
        let r = Section { name, entries: Vec::new() };
        proof {
            assert(r@.entries =~= Seq::<EntryView>::empty());
        }
        r
    }

    /// The tasks of this section, in order; the task numbered `n` stands at `n - 1`.
    pub fn tasks(&self) -> (r: Vec<Task>)
        ensures
            r@.map_values(|t: Task| t@) == tasks_of(self@.entries),
    {
        let mut r: Vec<Task> = Vec::new();
        let mut i: usize = 0;
        let ghost es = self@.entries;
        while i < self.entries.len()
            invariant
                i <= self.entries.len(),
                es == self@.entries,
                r@.map_values(|t: Task| t@) == tasks_of(es.take(i as int)),
            decreases self.entries.len() - i,
        {
            proof {
                assert(es.take(i + 1).drop_last() =~= es.take(i as int));
                assert(es.take(i + 1).last() == self.entries@[i as int]@);
            }
            match &self.entries[i] {
                Entry::Task(t) => {
                    let ghost before = r@;
                    r.push(t.duplicate());
                    proof {
                        assert(r@.map_values(|t: Task| t@) =~= before.map_values(|t: Task| t@).push(
                            t@,
                        ));
                    }
                },
                Entry::Line(_) => {},
            }
            i = i + 1;
        }
        proof {
            assert(es.take(self.entries.len() as int) =~= es);
        }
        r
    }
}

impl TodoFile {
    /// A document with no header lines and no sections.
    pub fn new() -> (r: TodoFile)
        ensures
            r@ == empty_doc(),
    {
        let r = TodoFile { sections: Vec::new(), header_lines: Vec::new() };
        proof {
            assert(r@.header =~= Seq::<Seq<char>>::empty());
            assert(r@.sections =~= Seq::<SectionView>::empty());
        }
        r
    }

    fn read_line(&mut self, line: &Vec<char>)
        ensures
            final(self)@ == parse_step(old(self)@, line@),
    {
        let n = line.len();
        let mut head = false;
        let mut k: usize = 2;
        if n > 2 && line[0] == '#' && line[1] == '#' && is_ws_char(line[2]) {
            while k < n && is_ws_char(line[k])
                invariant
                    2 <= k <= n,
                    n == line.len(),
                    skip_ws(line@, 2) == skip_ws(line@, k as int),
                decreases n - k,
            {
                k = k + 1;
            }
            head = k < n || n >= 4;
        }
        proof {
            assert(head == is_heading(line@));
            if head {
                assert(skip_ws(line@, 2) == k);
            }
        }
        if head {
            let start = if k < n { k } else { n - 1 };
            let name = slice_of(line, start, n);
            proof {
                assert(name@ =~= heading_name(line@));
            }
            let s = Section::new(string_of(&name));
            self.sections.push(s);
            proof {
                assert(final(self)@.sections =~= old(self)@.sections.push(empty_section(heading_name(line@))));
                assert(final(self)@.header =~= old(self)@.header);
            }
        } else if self.sections.len() == 0 {
            self.header_lines.push(string_of(line));
            proof {
                assert(final(self)@.header =~= old(self)@.header.push(line@));
                assert(final(self)@.sections =~= old(self)@.sections);
            }
        } else {
            let e = match Task::from_chars(line) {
                Some(t) => Some(Entry::Task(t)),
                None => {
                    if blank(line) {
                        None
                    } else {
                        Some(Entry::Line(string_of(line)))
                    }
                },
            };
            match e {
                Some(e) => {
                    let ghost ev = e@;
                    let mut last = self.sections.pop().unwrap();
                    let ghost lv = last@;
                    last.entries.push(e);
                    proof {
                        assert(last@.entries =~= lv.entries.push(ev));
                    }
                    self.sections.push(last);
                    proof {
                        let od = old(self)@;
                        assert(final(self)@.sections =~= od.sections.update(
                            od.sections.len() - 1,
                            with_entry(od.sections.last(), ev),
                        ));
                        assert(final(self)@.header =~= od.header);
                    }
                },
                None => {},
            }
        }
    }

    /// Reads a document: `## name` lines open sections, the lines before the
    /// first of them are kept as the header, and within a section each line is
    /// a task, a kept line, or a blank line that is dropped.
    pub fn parse(content: &str) -> (r: TodoFile)
        ensures
            r@ == parse_text(content@),
    {
        let chars = chars_of(content);
        let mut doc = TodoFile::new();
        let mut cur: Vec<char> = Vec::new();
        let mut i: usize = 0;
        proof {
            assert(chars@.take(0) =~= Seq::<char>::empty());
        }
        while i < chars.len()
            invariant
                i <= chars.len(),
                doc@ == parse_lines(split_nl(chars@.take(i as int)).0),
                cur@ == split_nl(chars@.take(i as int)).1,
            decreases chars.len() - i,
        {
            let c = chars[i];
            let ghost done = split_nl(chars@.take(i as int)).0;
            proof {
                assert(chars@.take(i + 1).drop_last() =~= chars@.take(i as int));
                assert(chars@.take(i + 1).last() == c);
            }
            if c == '\n' {
                let ghost raw = cur@;
                if cur.len() > 0 && cur[cur.len() - 1] == '\r' {
                    cur.pop();
                }
                proof {
                    assert(cur@ =~= strip_cr(raw));
                }
                doc.read_line(&cur);
                proof {
                    lemma_parse_push(done, cur@);
                }
                cur = Vec::new();
                proof {
                    assert(cur@ =~= Seq::<char>::empty());
                }
            } else {
                cur.push(c);
            }
            i = i + 1;
        }
        proof {
            assert(chars@.take(chars.len() as int) =~= chars@);
        }
        if cur.len() > 0 {
            let ghost done = split_nl(chars@).0;
            doc.read_line(&cur);
            proof {
                lemma_parse_push(done, cur@);
            }
        }
        doc
    }

    /// The text of this document: each header line, then for each section its
    /// `## name` heading, the line of each entry and one blank line.
    pub fn to_string(&self) -> (r: String)
        ensures
            r@ == serialize(self@),
    {
        let mut out: Vec<char> = Vec::new();
        let ghost d = self@;
        let ghost mut ls: Seq<Seq<char>> = Seq::empty();
        let mut i: usize = 0;
        while i < self.header_lines.len()
            invariant
                i <= self.header_lines.len(),
                d == self@,
                ls == d.header.take(i as int),
                out@ == join(ls),
            decreases self.header_lines.len() - i,
        {
            let l = chars_of(self.header_lines[i].as_str());
            emit(&mut out, &l);
            proof {
                lemma_join_push(ls, l@);
                ls = ls.push(l@);
                assert(ls =~= d.header.take(i + 1));
            }
            i = i + 1;
        }
        proof {
            assert(d.header.take(i as int) =~= d.header);
            assert(d.sections.take(0) =~= Seq::<SectionView>::empty());
            assert(ls =~= d.header + sections_lines(d.sections.take(0)));
        }
        let mut k: usize = 0;
        while k < self.sections.len()
            invariant
                k <= self.sections.len(),
                d == self@,
                ls == d.header + sections_lines(d.sections.take(k as int)),
                out@ == join(ls),
            decreases self.sections.len() - k,
        {
            let sec = &self.sections[k];
            let ghost sv = sec@;
            let ghost base = ls;
            let mut h: Vec<char> = Vec::new();
            h.push('#');
            h.push('#');
            h.push(' ');
            let nm = chars_of(sec.name.as_str());
            push_all(&mut h, &nm);
            proof {
                assert(h@ =~= heading_prefix() + sv.name);
            }
            emit(&mut out, &h);
            proof {
                lemma_join_push(ls, h@);
                ls = ls.push(h@);
            }
            let ghost es = sv.entries.map_values(|e: EntryView| entry_line(e));
            let mut j: usize = 0;
            while j < sec.entries.len()
                invariant
                    j <= sec.entries.len(),
                    sv == sec@,
                    es == sv.entries.map_values(|e: EntryView| entry_line(e)),
                    ls == base.push(heading_prefix() + sv.name) + es.take(j as int),
                    out@ == join(ls),
                decreases sec.entries.len() - j,
            {
                let l = sec.entries[j].line_chars();
                emit(&mut out, &l);
                proof {
                    lemma_join_push(ls, l@);
                    ls = ls.push(l@);
                    assert(ls =~= base.push(heading_prefix() + sv.name) + es.take(j + 1));
                }
                j = j + 1;
            }
            let blank_line: Vec<char> = Vec::new();
            emit(&mut out, &blank_line);
            proof {
                lemma_join_push(ls, blank_line@);
                ls = ls.push(blank_line@);
                assert(es.take(es.len() as int) =~= es);
                assert(section_lines(sv) =~= seq![heading_prefix() + sv.name] + es + seq![
                    Seq::<char>::empty(),
                ]);
                assert(d.sections.take(k + 1).drop_last() =~= d.sections.take(k as int));
                assert(d.sections.take(k + 1).last() == sv);
                assert(ls =~= d.header + sections_lines(d.sections.take(k + 1)));
            }
            k = k + 1;
        }
        proof {
            assert(d.sections.take(k as int) =~= d.sections);
        }
        string_of(&out)
    }

    /// The index of the first section whose name equals `name` up to ASCII case.
    pub fn find_section(&self, name: &str) -> (r: Option<usize>)
        ensures
            match r {
                Some(i) => first_match(self@.sections, name@, i as int),
                None => no_match(self@.sections, name@),
            },
    {
        let want = chars_of(name);
        let mut i: usize = 0;
        while i < self.sections.len()
            invariant
                i <= self.sections.len(),
                want@ == name@,
                forall|j: int| 0 <= j < i ==> !names_match(#[trigger] self@.sections[j].name, name@),
            decreases self.sections.len() - i,
        {
            let have = chars_of(self.sections[i].name.as_str());
            if names_match_chars(&have, &want) {
                return Some(i);
            }
            i = i + 1;
        }
        None
    }

    /// The index of the section named `name`, appending an empty one at the end where none matches.
    pub fn get_or_create_section(&mut self, name: &str) -> (r: usize)
        ensures
            final(self)@.header == old(self)@.header,
            match self_find(old(self)@.sections, name@) {
                Some(i) => r == i && final(self)@ == old(self)@,
                None => r == old(self)@.sections.len() && final(self)@.sections == old(
                    self,
                )@.sections.push(empty_section(name@)),
            },
            r < final(self)@.sections.len(),
    {
        match self.find_section(name) {
            Some(i) => {
                proof {
                    lemma_find_unique(old(self)@.sections, name@, i as int);
                }
                i
            },
            None => {
                let s = Section::new(string_of(&chars_of(name)));
                self.sections.push(s);
                proof {
                    lemma_find_none(old(self)@.sections, name@);
                    assert(final(self)@.sections =~= old(self)@.sections.push(empty_section(name@)));
                    assert(final(self)@.header =~= old(self)@.header);
                }
                self.sections.len() - 1
            },
        }
    }

    /// For each section in order, its name and its tasks numbered from 1.
    pub fn numbered_tasks(&self) -> (r: Vec<(String, Vec<(usize, Task)>)>)
        ensures
            r.len() == self@.sections.len(),
            forall|k: int|
                0 <= k < r.len() ==> {
                    &&& (#[trigger] r@[k]).0@ == self@.sections[k].name
                    &&& r@[k].1.len() == tasks_of(self@.sections[k].entries).len()
                    &&& forall|j: int|
                        0 <= j < r@[k].1.len() ==> (#[trigger] r@[k].1@[j]).0 == j + 1
                            && r@[k].1@[j].1@ == tasks_of(self@.sections[k].entries)[j]
                },
    {
        let mut r: Vec<(String, Vec<(usize, Task)>)> = Vec::new();
        let mut k: usize = 0;
        while k < self.sections.len()
            invariant
                k <= self.sections.len(),
                r.len() == k,
                forall|q: int|
                    0 <= q < k ==> {
                        &&& (#[trigger] r@[q]).0@ == self@.sections[q].name
                        &&& r@[q].1.len() == tasks_of(self@.sections[q].entries).len()
                        &&& forall|j: int|
                            0 <= j < r@[q].1.len() ==> (#[trigger] r@[q].1@[j]).0 == j + 1
                                && r@[q].1@[j].1@ == tasks_of(self@.sections[q].entries)[j]
                    },
            decreases self.sections.len() - k,
        {
            let numbered = self.sections[k].numbered();
            r.push((self.sections[k].name.clone(), numbered));
            k = k + 1;
        }
        r
    }
}

/// The first matching section, if any.
pub open spec fn self_find(ss: Seq<SectionView>, name: Seq<char>) -> Option<int> {
    if no_match(ss, name) {
        None
    } else {
        Some(choose|i: int| first_match(ss, name, i))
    }
}

pub proof fn lemma_find_unique(ss: Seq<SectionView>, name: Seq<char>, i: int)
    requires
        first_match(ss, name, i),
    ensures
        self_find(ss, name) == Some(i),
{
    assert(!no_match(ss, name));
    let c = choose|c: int| first_match(ss, name, c);
    if c < i {
        assert(!names_match(ss[c].name, name));
    }
    if i < c {
        assert(!names_match(ss[i].name, name));
    }
}

pub proof fn lemma_find_none(ss: Seq<SectionView>, name: Seq<char>)
    requires
        no_match(ss, name),
    ensures
        self_find(ss, name) is None,
{
}


/// The lines of `s`, as [`lines`] gives them.
pub fn split_lines(s: &Vec<char>) -> (r: Vec<Vec<char>>)
    ensures
        r@.map_values(|v: Vec<char>| v@) == lines(s@),
{
    let mut done: Vec<Vec<char>> = Vec::new();
    let mut cur: Vec<char> = Vec::new();
    let mut i: usize = 0;
    proof {
        assert(s@.take(0) =~= Seq::<char>::empty());
        assert(done@.map_values(|v: Vec<char>| v@) =~= Seq::<Seq<char>>::empty());
    }
    while i < s.len()
        invariant
            i <= s.len(),
            done@.map_values(|v: Vec<char>| v@) == split_nl(s@.take(i as int)).0,
            cur@ == split_nl(s@.take(i as int)).1,
        decreases s.len() - i,
    {
        proof {
            assert(s@.take(i + 1).drop_last() =~= s@.take(i as int));
            assert(s@.take(i + 1).last() == s@[i as int]);
        }
        if s[i] == '\n' {
            let ghost raw = cur@;
            if cur.len() > 0 && cur[cur.len() - 1] == '\r' {
                cur.pop();
            }
            proof {
                assert(cur@ =~= strip_cr(raw));
            }
            let ghost before = done@;
            let ghost cv = cur@;
            done.push(cur);
            cur = Vec::new();
            proof {
                assert(done@.map_values(|v: Vec<char>| v@) =~= before.map_values(|v: Vec<char>| v@).push(cv));
                assert(cur@ =~= Seq::<char>::empty());
            }
        } else {
            cur.push(s[i]);
        }
        i = i + 1;
    }
    proof {
        assert(s@.take(s.len() as int) =~= s@);
    }
    if cur.len() > 0 {
        let ghost before = done@;
        let ghost cv = cur@;
        done.push(cur);
        proof {
            assert(done@.map_values(|v: Vec<char>| v@) =~= before.map_values(|v: Vec<char>| v@).push(cv));
        }
    }
    done
}

/// The sections whose names match `filter`, or all of them where there is none.
pub open spec fn listed_sections(ss: Seq<SectionView>, filter: Option<Seq<char>>) -> Seq<SectionView>
    decreases ss.len(),
{
    if ss.len() == 0 {
        Seq::empty()
    } else {
        let front = listed_sections(ss.drop_last(), filter);
        match filter {
            Some(f) => if names_match(ss.last().name, f) {
                front.push(ss.last())
            } else {
                front
            },
            None => front.push(ss.last()),
        }
    }
}

pub open spec fn numbered_as(r: Seq<(String, Vec<(usize, Task)>)>, ss: Seq<SectionView>) -> bool {
    &&& r.len() == ss.len()
    &&& forall|k: int|
        0 <= k < r.len() ==> {
            &&& (#[trigger] r[k]).0@ == ss[k].name
            &&& r[k].1.len() == tasks_of(ss[k].entries).len()
            &&& forall|j: int|
                0 <= j < r[k].1.len() ==> (#[trigger] r[k].1@[j]).0 == j + 1 && r[k].1@[j].1@
                    == tasks_of(ss[k].entries)[j]
        }
}

impl Section {
    /// The tasks of the section numbered from 1.
    pub fn numbered(&self) -> (r: Vec<(usize, Task)>)
        ensures
            r.len() == tasks_of(self@.entries).len(),
            forall|j: int|
                0 <= j < r.len() ==> (#[trigger] r@[j]).0 == j + 1 && r@[j].1@ == tasks_of(
                    self@.entries,
                )[j],
    {
        let ts = self.tasks();
        let ghost tv = tasks_of(self@.entries);
        let mut numbered: Vec<(usize, Task)> = Vec::new();
        let mut j: usize = 0;
        while j < ts.len()
            invariant
                j <= ts.len(),
                ts@.map_values(|t: Task| t@) == tv,
                numbered.len() == j,
                forall|q: int|
                    0 <= q < j ==> (#[trigger] numbered@[q]).0 == q + 1 && numbered@[q].1@ == tv[q],
            decreases ts.len() - j,
        {
            numbered.push((j + 1, ts[j].duplicate()));
            j = j + 1;
        }
        numbered
    }
}

impl TodoFile {
    /// For each section whose name matches `filter` up to ASCII case (each
    /// section where there is no filter), in order, its name and its tasks numbered from 1.
    pub fn listing(&self, filter: Option<&str>) -> (r: Vec<(String, Vec<(usize, Task)>)>)
        ensures
            numbered_as(
                r@,
                listed_sections(
                    self@.sections,
                    match filter {
                        Some(f) => Some(f@),
                        None => None,
                    },
                ),
            ),
    {
        let ghost fv = match filter {
            Some(f) => Some(f@),
            None => None,
        };
        let want = match filter {
            Some(f) => Some(chars_of(f)),
            None => None,
        };
        let ghost ss = self@.sections;
        let mut r: Vec<(String, Vec<(usize, Task)>)> = Vec::new();
        let mut k: usize = 0;
        proof {
            assert(ss.take(0) =~= Seq::<SectionView>::empty());
        }
        while k < self.sections.len()
            invariant
                k <= self.sections.len(),
                ss == self@.sections,
                fv == match filter {
                    Some(f) => Some(f@),
                    None => None::<Seq<char>>,
                },
                match want {
                    Some(w) => fv == Some(w@),
                    None => fv is None,
                },
                numbered_as(r@, listed_sections(ss.take(k as int), fv)),
            decreases self.sections.len() - k,
        {
            proof {
                assert(ss.take(k + 1).drop_last() =~= ss.take(k as int));
                assert(ss.take(k + 1).last() == ss[k as int]);
            }
            let keep = match &want {
                Some(w) => {
                    let have = chars_of(self.sections[k].name.as_str());
                    names_match_chars(&have, w)
                },
                None => true,
            };
            let ghost before = r@;
            let ghost lb = listed_sections(ss.take(k as int), fv);
            if keep {
                let nums = self.sections[k].numbered();
                r.push((self.sections[k].name.clone(), nums));
                proof {
                    let la = listed_sections(ss.take(k + 1), fv);
                    assert(la == lb.push(ss[k as int]));
                    assert forall|q: int| 0 <= q < r@.len() implies {
                        &&& (#[trigger] r@[q]).0@ == la[q].name
                        &&& r@[q].1.len() == tasks_of(la[q].entries).len()
                        &&& forall|j: int|
                            0 <= j < r@[q].1.len() ==> (#[trigger] r@[q].1@[j]).0 == j + 1 && r@[q].1@[j].1@
                                == tasks_of(la[q].entries)[j]
                    } by {
                        if q < before.len() {
                            assert(r@[q] == before[q]);
                            assert(la[q] == lb[q]);
                        }
                    }
                }
            } else {
                proof {
                    assert(listed_sections(ss.take(k + 1), fv) == lb);
                }
            }
            k = k + 1;
        }
        proof {
            assert(ss.take(self.sections.len() as int) =~= ss);
        }
        r
    }
}
} // verus!
