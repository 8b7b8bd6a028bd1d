use vstd::prelude::*;
use crate::document::{
    Entry, EntryView, SectionView, TodoFile, DocView, tasks_of, no_match, first_match,
    self_find, empty_section, lemma_find_unique,
};
use crate::reference::{
    TodoError, first_colon, has_colon, number_value, all_numbers, lists_number, increasing,
    parse_task_ref, parse_task_ref_multi, parse_numbers,
};
use crate::task::{Task, TaskView};
use crate::text::chars_of;

verus! {

// ---------------------------------------------------------------- references, as specs

pub open spec fn colon_index(s: Seq<char>) -> int {
    choose|i: int| first_colon(s, i)
}

/// The section name of a reference: what stands before its first `:`.
pub open spec fn ref_name(s: Seq<char>) -> Seq<char> {
    s.take(colon_index(s))
}

/// What stands after the first `:` of a reference.
pub open spec fn ref_rest(s: Seq<char>) -> Seq<char> {
    s.skip(colon_index(s) + 1)
}

pub open spec fn task_count(d: DocView, i: int) -> int {
    tasks_of(d.sections[i].entries).len() as int
}

pub open spec fn found(d: DocView, s: Seq<char>) -> int {
    self_find(d.sections, ref_name(s)).unwrap()
}

/// A reference to one task that names a section of `d` and a task in it.
pub open spec fn single_ok(d: DocView, s: Seq<char>) -> bool {
    &&& has_colon(s)
    &&& number_value(ref_rest(s)) is Some
    &&& self_find(d.sections, ref_name(s)) is Some
    &&& 1 <= number_value(ref_rest(s)).unwrap() <= task_count(d, found(d, s))
}

/// The error that a reference to one task gives where it does not hold.
pub open spec fn single_error(d: DocView, s: Seq<char>, e: TodoError) -> bool {
    if !has_colon(s) {
        e == TodoError::InvalidReference
    } else if number_value(ref_rest(s)) is None {
        e == TodoError::InvalidNumber
    } else if self_find(d.sections, ref_name(s)) is None {
        e matches TodoError::SectionNotFound(n) && n@ == ref_name(s)
    } else {
        e matches TodoError::TaskNotFound(n, k) && n@ == ref_name(s) && k as nat == number_value(
            ref_rest(s),
        ).unwrap()
    }
}

/// The numbers that a reference to several tasks lists.
pub open spec fn listed(s: Seq<char>) -> Set<int> {
    Set::new(|n: int| n >= 0 && lists_number(ref_rest(s), n as nat))
}

/// A reference to several tasks that names a section of `d` and only tasks in it.
pub open spec fn multi_ok(d: DocView, s: Seq<char>) -> bool {
    &&& has_colon(s)
    &&& all_numbers(ref_rest(s))
    &&& self_find(d.sections, ref_name(s)) is Some
    &&& forall|n: int| #[trigger] listed(s).contains(n) ==> 1 <= n <= task_count(d, found(d, s))
}

/// The number reported for a list whose numbers do not all name a task:
/// the largest one past the end, or else zero.
pub open spec fn bad_number(nums: Set<int>, count: int, k: int) -> bool {
    &&& nums.contains(k)
    &&& (k == 0 || k > count)
    &&& forall|m: int| #[trigger] nums.contains(m) && m > count ==> m <= k
}

pub open spec fn multi_error(d: DocView, s: Seq<char>, e: TodoError) -> bool {
    if !has_colon(s) {
        e == TodoError::InvalidReference
    } else if !all_numbers(ref_rest(s)) {
        e == TodoError::InvalidNumber
    } else if self_find(d.sections, ref_name(s)) is None {
        e matches TodoError::SectionNotFound(n) && n@ == ref_name(s)
    } else {
        e matches TodoError::TaskNotFound(n, k) && n@ == ref_name(s) && bad_number(
            listed(s),
            task_count(d, found(d, s)),
            k as int,
        )
    }
}

// ---------------------------------------------------------------- entries, as specs

/// The entries with the task numbered `k + 1` replaced by `t`.
pub open spec fn replace_task(es: Seq<EntryView>, k: int, t: TaskView) -> Seq<EntryView>
    decreases es.len(),
{
    if es.len() == 0 {
        Seq::empty()
    } else {
        let front = replace_task(es.drop_last(), k, t);
        match es.last() {
            EntryView::Task(_) => if tasks_of(es.drop_last()).len() == k {
                front.push(EntryView::Task(t))
            } else {
                front.push(es.last())
            },
            EntryView::Line(_) => front.push(es.last()),
        }
    }
}

/// The entries without the tasks whose numbers are in `nums`.
pub open spec fn remove_tasks(es: Seq<EntryView>, nums: Set<int>) -> Seq<EntryView>
    decreases es.len(),
{
    if es.len() == 0 {
        Seq::empty()
    } else {
        let front = remove_tasks(es.drop_last(), nums);
        match es.last() {
            EntryView::Task(_) => if nums.contains(tasks_of(es.drop_last()).len() + 1 as int) {
                front
            } else {
                front.push(es.last())
            },
            EntryView::Line(_) => front.push(es.last()),
        }
    }
}

pub open spec fn as_entries(ts: Seq<TaskView>) -> Seq<EntryView> {
    ts.map_values(|t: TaskView| EntryView::Task(t))
}

pub open spec fn with_entries(s: SectionView, es: Seq<EntryView>) -> SectionView {
    SectionView { name: s.name, entries: es }
}

/// The numbered tasks handed back: ascending numbers, exactly those of `nums`,
/// each with the task that had that number in `es`.
pub open spec fn picked(r: Seq<(usize, Task)>, es: Seq<EntryView>, nums: Set<int>) -> bool {
    &&& forall|i: int, j: int| 0 <= i < j < r.len() ==> r[i].0 < r[j].0
    &&& forall|n: int| nums.contains(n) <==> exists|j: int| 0 <= j < r.len() && r[j].0 == n
    &&& forall|j: int|
        0 <= j < r.len() ==> 1 <= (#[trigger] r[j]).0 <= tasks_of(es).len() && r[j].1@ == tasks_of(
            es,
        )[r[j].0 - 1]
}

// ---------------------------------------------------------------- helpers

/// The numbers of a list, as a set.
pub open spec fn num_set(v: Seq<usize>) -> Set<int> {
    Set::new(|n: int| exists|q: int| 0 <= q < v.len() && v[q] as int == n)
}

proof fn lemma_tasks_push(es: Seq<EntryView>, e: EntryView)
    ensures
        tasks_of(es.push(e)) == match e {
            EntryView::Task(t) => tasks_of(es).push(t),
            EntryView::Line(_) => tasks_of(es),
        },
{
    assert(es.push(e).drop_last() =~= es);
}

impl Entry {
    pub fn duplicate(&self) -> (r: Entry)
        ensures
            r@ == self@,
    {
        match self {
            Entry::Task(t) => Entry::Task(t.duplicate()),
            Entry::Line(l) => Entry::Line(l.clone()),
        }
    }
}

fn has_num(v: &Vec<usize>, n: usize) -> (r: bool)
    ensures
        r == v@.contains(n),
{
    let mut i: usize = 0;
    while i < v.len()
        invariant
            i <= v.len(),
            forall|j: int| 0 <= j < i ==> v@[j] != n,
        decreases v.len() - i,
    {
        if v[i] == n {
            return true;
        }
        i = i + 1;
    }
    false
}

fn count_tasks(es: &Vec<Entry>) -> (r: usize)
    ensures
        r == tasks_of(es@.map_values(|e: Entry| e@)).len(),
{
    let ghost ev = es@.map_values(|e: Entry| e@);
    let mut c: usize = 0;
    let mut i: usize = 0;
    while i < es.len()
        invariant
            i <= es.len(),
            ev == es@.map_values(|e: Entry| e@),
            c == tasks_of(ev.take(i as int)).len(),
            c <= i,
        decreases es.len() - i,
    {
        proof {
            assert(ev.take(i + 1) =~= ev.take(i as int).push(ev[i as int]));
            lemma_tasks_push(ev.take(i as int), ev[i as int]);
        }
        match &es[i] {
            Entry::Task(_) => {
                c = c + 1;
            },
            Entry::Line(_) => {},
        }
        i = i + 1;
    }
    proof {
        assert(ev.take(es.len() as int) =~= ev);
    }
    c
}

/// The entries with the task at 0-based place `k` among tasks replaced by `t`.
fn replaced(es: &Vec<Entry>, k: usize, t: &Task) -> (r: Vec<Entry>)
    ensures
        r@.map_values(|e: Entry| e@) == replace_task(es@.map_values(|e: Entry| e@), k as int, t@),
{
    let ghost ev = es@.map_values(|e: Entry| e@);
    let mut r: Vec<Entry> = Vec::new();
    let mut c: usize = 0;
    let mut i: usize = 0;
    proof {
        assert(r@.map_values(|e: Entry| e@) =~= replace_task(ev.take(0), k as int, t@));
    }
    while i < es.len()
        invariant
            i <= es.len(),
            ev == es@.map_values(|e: Entry| e@),
            c == tasks_of(ev.take(i as int)).len(),
            c <= i,
            r@.map_values(|e: Entry| e@) == replace_task(ev.take(i as int), k as int, t@),
        decreases es.len() - i,
    {
        let ghost before = r@.map_values(|e: Entry| e@);
        proof {
            assert(ev.take(i + 1).drop_last() =~= ev.take(i as int));
            assert(ev.take(i + 1).last() == ev[i as int]);
            lemma_tasks_push(ev.take(i as int), ev[i as int]);
            assert(ev.take(i + 1) =~= ev.take(i as int).push(ev[i as int]));
        }
        match &es[i] {
            Entry::Task(_) => {
                if c == k {
                    r.push(Entry::Task(t.duplicate()));
                } else {
                    r.push(es[i].duplicate());
                }
                c = c + 1;
            },
            Entry::Line(_) => {
                r.push(es[i].duplicate());
            },
        }
        proof {
            assert(r@.map_values(|e: Entry| e@) =~= replace_task(ev.take(i + 1), k as int, t@));
        }
        i = i + 1;
    }
    proof {
        assert(ev.take(es.len() as int) =~= ev);
    }
    r
}

/// Splits the entries into those kept and the numbered tasks whose numbers are in `nums`.
fn split_off(es: &Vec<Entry>, nums: &Vec<usize>) -> (r: (Vec<Entry>, Vec<(usize, Task)>))
    requires
        forall|j: int|
            0 <= j < nums.len() ==> 1 <= #[trigger] nums@[j] <= tasks_of(
                es@.map_values(|e: Entry| e@),
            ).len(),
    ensures
        r.0@.map_values(|e: Entry| e@) == remove_tasks(
            es@.map_values(|e: Entry| e@),
            num_set(nums@),
        ),
        picked(
            r.1@,
            es@.map_values(|e: Entry| e@),
            num_set(nums@),
        ),
{
    let ghost ev = es@.map_values(|e: Entry| e@);
    let ghost set = num_set(nums@);
    let mut kept: Vec<Entry> = Vec::new();
    let mut taken: Vec<(usize, Task)> = Vec::new();
    let mut c: usize = 0;
    let mut i: usize = 0;
    proof {
        assert(kept@.map_values(|e: Entry| e@) =~= remove_tasks(ev.take(0), set));
    }
    while i < es.len()
        invariant
            i <= es.len(),
            ev == es@.map_values(|e: Entry| e@),
            set == num_set(nums@),
            c == tasks_of(ev.take(i as int)).len(),
            c <= i,
            kept@.map_values(|e: Entry| e@) == remove_tasks(ev.take(i as int), set),
            forall|a: int, b: int| 0 <= a < b < taken.len() ==> taken@[a].0 < taken@[b].0,
            forall|j: int|
                0 <= j < taken.len() ==> 1 <= (#[trigger] taken@[j]).0 <= c && taken@[j].1@
                    == tasks_of(ev.take(i as int))[taken@[j].0 - 1],
            forall|n: int|
                (set.contains(n) && 1 <= n <= c) <==> exists|j: int|
                    0 <= j < taken.len() && taken@[j].0 == n,
        decreases es.len() - i,
    {
        let ghost before = kept@.map_values(|e: Entry| e@);
        let ghost tk = taken@;
        let ghost pre = tasks_of(ev.take(i as int));
        proof {
            assert(ev.take(i + 1).drop_last() =~= ev.take(i as int));
            assert(ev.take(i + 1).last() == ev[i as int]);
            lemma_tasks_push(ev.take(i as int), ev[i as int]);
            assert(ev.take(i + 1) =~= ev.take(i as int).push(ev[i as int]));
        }
        match &es[i] {
            Entry::Task(t) => {
                let num = c + 1;
                if has_num(nums, num) {
                    taken.push((num, t.duplicate()));
                    proof {
                        let q = choose|q: int| 0 <= q < nums.len() && nums@[q] == num;
                        assert(nums@[q] as int == num as int);
                        assert(set.contains(num as int));
                        assert forall|n: int|
                            (set.contains(n) && 1 <= n <= c + 1) <==> exists|j: int|
                                0 <= j < taken.len() && taken@[j].0 == n by {
                            if set.contains(n) && 1 <= n <= c {
                                let j = choose|j: int| 0 <= j < tk.len() && tk[j].0 == n;
                                assert(taken@[j] == tk[j]);
                            }
                            if n == c + 1 {
                                assert(taken@[tk.len() as int].0 == n);
                            }
                            if exists|j: int| 0 <= j < taken.len() && taken@[j].0 == n {
                                let j = choose|j: int| 0 <= j < taken.len() && taken@[j].0 == n;
                                if j < tk.len() {
                                    assert(taken@[j] == tk[j]);
                                }
                            }
                        }
                        assert forall|j: int|
                            0 <= j < taken.len() implies 1 <= (#[trigger] taken@[j]).0 <= c + 1
                                && taken@[j].1@ == tasks_of(ev.take(i + 1))[taken@[j].0 - 1] by {
                            if j < tk.len() {
                                assert(taken@[j] == tk[j]);
                            }
                        }
                    }
                } else {
                    kept.push(es[i].duplicate());
                    proof {
                        assert(!set.contains(num as int)) by {
                            if set.contains(num as int) {
                                let q = choose|q: int| 0 <= q < nums.len() && nums@[q] as int == num as int;
                                assert(nums@.contains(num));
                            }
                        }
                        assert forall|n: int|
                            (set.contains(n) && 1 <= n <= c + 1) <==> exists|j: int|
                                0 <= j < taken.len() && taken@[j].0 == n by {
                            if set.contains(n) && 1 <= n <= c + 1 {
                                assert(n <= c);
                            }
                        }
                    }
                }
                c = c + 1;
            },
            Entry::Line(_) => {
                kept.push(es[i].duplicate());
            },
        }
        proof {
            assert(kept@.map_values(|e: Entry| e@) =~= remove_tasks(ev.take(i + 1), set));
        }
        i = i + 1;
    }
    proof {
        assert(ev.take(es.len() as int) =~= ev);
        assert forall|n: int| set.contains(n) <==> exists|j: int|
            0 <= j < taken.len() && taken@[j].0 == n by {
            if set.contains(n) {
                let q = choose|q: int| 0 <= q < nums.len() && nums@[q] as int == n;
                assert(1 <= nums@[q] <= c);
            }
        }
    }
    (kept, taken)
}

impl TodoFile {
    /// Gives section `i` the entries `es`.
    fn set_entries(&mut self, i: usize, es: Vec<Entry>)
        requires
            i < old(self).sections.len(),
        ensures
            final(self)@.header == old(self)@.header,
            final(self)@.sections == old(self)@.sections.update(
                i as int,
                with_entries(old(self)@.sections[i as int], es@.map_values(|e: Entry| e@)),
            ),
    {
        let mut s = self.sections.remove(i);
        s.entries = es;
        self.sections.insert(i, s);
        proof {
            assert(final(self)@.sections =~= old(self)@.sections.update(
                i as int,
                with_entries(old(self)@.sections[i as int], es@.map_values(|e: Entry| e@)),
            ));
            assert(final(self)@.header =~= old(self)@.header);
        }
    }

    /// Finds the section and task that a reference to one task names: the
    /// section's index and the task's 0-based place among its tasks.
    fn locate(&self, task_ref: &str) -> (r: Result<(usize, usize), TodoError>)
        ensures
            match r {
                Ok((i, k)) => single_ok(self@, task_ref@) && i == found(self@, task_ref@) && k + 1
                    == number_value(ref_rest(task_ref@)).unwrap() && i < self@.sections.len(),
                Err(e) => !single_ok(self@, task_ref@) && single_error(self@, task_ref@, e),
            },
    {
        match parse_task_ref(task_ref) {
            Err(e) => {
                proof {
                    if has_colon(task_ref@) {
                        let i = choose|i: int| first_colon(task_ref@, i) && number_value(task_ref@.skip(i + 1)) is None;
                        lemma_colon_unique(task_ref@, i);
                    }
                }
                Err(e)
            },
            Ok((name, n)) => {
                proof {
                    let i = choose|i: int| first_colon(task_ref@, i) && name@ == task_ref@.take(i) && number_value(task_ref@.skip(i + 1)) == Some(n as nat);
                    lemma_colon_unique(task_ref@, i);
                }
                match self.find_section(name.as_str()) {
                    None => {
                        proof {
                            crate::document::lemma_find_none(self@.sections, name@);
                        }
                        Err(TodoError::SectionNotFound(name))
                    },
                    Some(i) => {
                        proof {
                            lemma_find_unique(self@.sections, name@, i as int);
                        }
                        let count = count_tasks(&self.sections[i].entries);
                        if n == 0 || n > count {
                            Err(TodoError::TaskNotFound(name, n))
                        } else {
                            Ok((i, n - 1))
                        }
                    },
                }
            },
        }
    }

    /// Replaces the task at 0-based place `k` of section `i` by `t`.
    fn put_task(&mut self, i: usize, k: usize, t: &Task)
        requires
            i < old(self).sections.len(),
        ensures
            final(self)@.header == old(self)@.header,
            final(self)@.sections == old(self)@.sections.update(
                i as int,
                with_entries(
                    old(self)@.sections[i as int],
                    replace_task(old(self)@.sections[i as int].entries, k as int, t@),
                ),
            ),
    {
        let es = replaced(&self.sections[i].entries, k, t);
        self.set_entries(i, es);
    }

    /// The task at 0-based place `k` of section `i`.
    fn task_at(&self, i: usize, k: usize) -> (r: Task)
        requires
            i < self@.sections.len(),
            k < tasks_of(self@.sections[i as int].entries).len(),
        ensures
            r@ == tasks_of(self@.sections[i as int].entries)[k as int],
    {
        let ts = self.sections[i].tasks();
        proof {
            assert(ts@.map_values(|t: Task| t@)[k as int] == ts@[k as int]@);
        }
        ts[k].duplicate()
    }
}

pub proof fn lemma_colon_unique(s: Seq<char>, i: int)
    requires
        first_colon(s, i),
    ensures
        colon_index(s) == i,
        has_colon(s),
{
    let c = choose|c: int| first_colon(s, c);
    assert(first_colon(s, c));
    if c < i {
        assert(s[c] != ':');
    }
    if i < c {
        assert(s[i] != ':');
    }
}


/// The entries followed by the given tasks.
fn appended(es: &Vec<Entry>, ts: &Vec<(usize, Task)>) -> (r: Vec<Entry>)
    ensures
        r@.map_values(|e: Entry| e@) == es@.map_values(|e: Entry| e@) + as_entries(
            ts@.map_values(|p: (usize, Task)| p.1@),
        ),
{
    let mut r: Vec<Entry> = Vec::new();
    let mut i: usize = 0;
    while i < es.len()
        invariant
            i <= es.len(),
            r@.map_values(|e: Entry| e@) == es@.map_values(|e: Entry| e@).take(i as int),
        decreases es.len() - i,
    {
        let ghost bm = r@.map_values(|e: Entry| e@);
        r.push(es[i].duplicate());
        proof {
            assert(r@.map_values(|e: Entry| e@) =~= bm.push(es@[i as int]@));
            assert(es@.map_values(|e: Entry| e@).take(i + 1) =~= es@.map_values(|e: Entry| e@).take(
                i as int,
            ).push(es@[i as int]@));
        }
        i = i + 1;
    }
    let ghost base = es@.map_values(|e: Entry| e@);
    let ghost tv = ts@.map_values(|p: (usize, Task)| p.1@);
    proof {
        assert(base.take(i as int) =~= base);
    }
    let mut j: usize = 0;
    while j < ts.len()
        invariant
            j <= ts.len(),
            tv == ts@.map_values(|p: (usize, Task)| p.1@),
            r@.map_values(|e: Entry| e@) == base + as_entries(tv.take(j as int)),
        decreases ts.len() - j,
    {
        let ghost bm = r@.map_values(|e: Entry| e@);
        r.push(Entry::Task(ts[j].1.duplicate()));
        proof {
            assert(r@.map_values(|e: Entry| e@) =~= bm.push(EntryView::Task(tv[j as int])));
            assert(as_entries(tv.take(j + 1)) =~= as_entries(tv.take(j as int)).push(
                EntryView::Task(tv[j as int]),
            ));
            assert(r@.map_values(|e: Entry| e@) =~= base + as_entries(tv.take(j + 1)));
        }
        j = j + 1;
    }
    proof {
        assert(tv.take(j as int) =~= tv);
    }
    r
}

/// The sections once `dest` is found or appended.
pub open spec fn dest_sections(ss: Seq<SectionView>, dest: Seq<char>) -> Seq<SectionView> {
    match self_find(ss, dest) {
        Some(_) => ss,
        None => ss.push(empty_section(dest)),
    }
}

pub open spec fn dest_index(ss: Seq<SectionView>, dest: Seq<char>) -> int {
    match self_find(ss, dest) {
        Some(i) => i,
        None => ss.len() as int,
    }
}

/// The task that a reference to one task names, as it is in `d`.
pub open spec fn old_task(d: DocView, s: Seq<char>) -> TaskView {
    tasks_of(d.sections[found(d, s)].entries)[number_value(ref_rest(s)).unwrap() - 1]
}

/// The sections with the task that `s` names replaced by `t`.
pub open spec fn with_task(d: DocView, s: Seq<char>, t: TaskView) -> Seq<SectionView> {
    d.sections.update(
        found(d, s),
        with_entries(
            d.sections[found(d, s)],
            replace_task(d.sections[found(d, s)].entries, number_value(ref_rest(s)).unwrap() - 1, t),
        ),
    )
}

/// The sections without the tasks that `s` lists.
pub open spec fn without_listed(d: DocView, s: Seq<char>) -> Seq<SectionView> {
    d.sections.update(
        found(d, s),
        with_entries(
            d.sections[found(d, s)],
            remove_tasks(d.sections[found(d, s)].entries, listed(s)),
        ),
    )
}

impl TodoFile {
    /// Adds an open task with `text` as the last entry of the section named
    /// `section`, appending that section where none matches; gives its index.
    pub fn add_task(&mut self, section: &str, text: String) -> (r: usize)
        ensures
            final(self)@.header == old(self)@.header,
            r == dest_index(old(self)@.sections, section@),
            final(self)@.sections == dest_sections(old(self)@.sections, section@).update(
                r as int,
                crate::document::with_entry(
                    dest_sections(old(self)@.sections, section@)[r as int],
                    EntryView::Task(TaskView { text: text@, done: false, done_date: None }),
                ),
            ),
    {
        let i = self.get_or_create_section(section);
        let t = Task { text, done: false, done_date: None };
        let mut one: Vec<(usize, Task)> = Vec::new();
        one.push((1, t));
        let es = appended(&self.sections[i].entries, &one);
        let ghost mid = self@;
        self.set_entries(i, es);
        proof {
            assert(one@.map_values(|p: (usize, Task)| p.1@) =~= seq![TaskView { text: text@, done: false, done_date: None }]);
            assert(mid.sections[i as int].entries + as_entries(seq![TaskView { text: text@, done: false, done_date: None }]) =~= mid.sections[i as int].entries.push(EntryView::Task(TaskView { text: text@, done: false, done_date: None })));
        }
        i
    }

    /// Checks that `task_ref` names one task of this document, changing nothing.
    pub fn check_single(&self, task_ref: &str) -> (r: Result<(), TodoError>)
        ensures
            r is Ok <==> single_ok(self@, task_ref@),
            match r {
                Ok(_) => true,
                Err(e) => single_error(self@, task_ref@, e),
            },
    {
        match self.locate(task_ref) {
            Ok(_) => Ok(()),
            Err(e) => Err(e),
        }
    }

    /// Marks the task that `task_ref` names done on `today`; gives the task as it is now.
    pub fn mark_done(&mut self, task_ref: &str, today: String) -> (r: Result<Task, TodoError>)
        ensures
            r is Ok <==> single_ok(old(self)@, task_ref@),
            match r {
                Ok(t) => {
                    &&& t@ == (TaskView {
                        text: old_task(old(self)@, task_ref@).text,
                        done: true,
                        done_date: Some(today@),
                    })
                    &&& final(self)@.header == old(self)@.header
                    &&& final(self)@.sections == with_task(old(self)@, task_ref@, t@)
                },
                Err(e) => single_error(old(self)@, task_ref@, e) && final(self)@ == old(self)@,
            },
    {
        match self.locate(task_ref) {
            Err(e) => Err(e),
            Ok((i, k)) => {
                let cur = self.task_at(i, k);
                let t = Task { text: cur.text, done: true, done_date: Some(today) };
                self.put_task(i, k, &t);
                Ok(t)
            },
        }
    }

    /// Marks the task that `task_ref` names open again and clears its date;
    /// gives the task as it is now.
    pub fn mark_undone(&mut self, task_ref: &str) -> (r: Result<Task, TodoError>)
        ensures
            r is Ok <==> single_ok(old(self)@, task_ref@),
            match r {
                Ok(t) => {
                    &&& t@ == (TaskView {
                        text: old_task(old(self)@, task_ref@).text,
                        done: false,
                        done_date: None,
                    })
                    &&& final(self)@.header == old(self)@.header
                    &&& final(self)@.sections == with_task(old(self)@, task_ref@, t@)
                },
                Err(e) => single_error(old(self)@, task_ref@, e) && final(self)@ == old(self)@,
            },
    {
        match self.locate(task_ref) {
            Err(e) => Err(e),
            Ok((i, k)) => {
                let cur = self.task_at(i, k);
                let t = Task { text: cur.text, done: false, done_date: None };
                self.put_task(i, k, &t);
                Ok(t)
            },
        }
    }

    /// Gives the task that `task_ref` names the text `new_text`, keeping its
    /// state and date; gives the task as it was before.
    pub fn edit_task(&mut self, task_ref: &str, new_text: String) -> (r: Result<Task, TodoError>)
        ensures
            r is Ok <==> single_ok(old(self)@, task_ref@),
            match r {
                Ok(t) => {
                    &&& t@ == old_task(old(self)@, task_ref@)
                    &&& final(self)@.header == old(self)@.header
                    &&& final(self)@.sections == with_task(
                        old(self)@,
                        task_ref@,
                        TaskView { text: new_text@, done: t@.done, done_date: t@.done_date },
                    )
                },
                Err(e) => single_error(old(self)@, task_ref@, e) && final(self)@ == old(self)@,
            },
    {
        match self.locate(task_ref) {
            Err(e) => Err(e),
            Ok((i, k)) => {
                let cur = self.task_at(i, k);
                let before = cur.duplicate();
                let t = Task { text: new_text, done: cur.done, done_date: cur.done_date };
                self.put_task(i, k, &t);
                Ok(before)
            },
        }
    }

    /// Finds the section and the task numbers that a reference to several tasks names.
    fn locate_many(&self, task_ref: &str) -> (r: Result<(usize, Vec<usize>), TodoError>)
        ensures
            match r {
                Ok((i, v)) => {
                    &&& multi_ok(self@, task_ref@)
                    &&& i == found(self@, task_ref@)
                    &&& i < self@.sections.len()
                    &&& num_set(v@) == listed(task_ref@)
                    &&& forall|j: int|
                        0 <= j < v.len() ==> 1 <= #[trigger] v@[j] <= tasks_of(
                            self@.sections[i as int].entries,
                        ).len()
                },
                Err(e) => !multi_ok(self@, task_ref@) && multi_error(self@, task_ref@, e),
            },
    {
        match parse_task_ref_multi(task_ref) {
            Err(e) => {
                proof {
                    if has_colon(task_ref@) {
                        let i = choose|i: int| first_colon(task_ref@, i) && !all_numbers(task_ref@.skip(i + 1)) && e == TodoError::InvalidNumber;
                        lemma_colon_unique(task_ref@, i);
                    }
                }
                Err(e)
            },
            Ok((name, v)) => {
                let ghost s = task_ref@;
                proof {
                    let i = choose|i: int| first_colon(s, i) && name@ == s.take(i) && all_numbers(s.skip(i + 1)) && increasing(v@) && forall|n: usize| v@.contains(n) <==> lists_number(s.skip(i + 1), n as nat);
                    lemma_colon_unique(s, i);
                    assert(num_set(v@) =~= listed(s)) by {
                        assert forall|n: int| num_set(v@).contains(n) <==> listed(s).contains(n) by {
                            if num_set(v@).contains(n) {
                                let q = choose|q: int| 0 <= q < v@.len() && v@[q] as int == n;
                                assert(v@.contains(v@[q]));
                            }
                            if listed(s).contains(n) {
                                let w = choose|w: int| 0 <= w < crate::reference::comma_pieces(ref_rest(s)).len() && #[trigger] number_value(crate::reference::trim(crate::reference::comma_pieces(ref_rest(s))[w])) == Some(n as nat);
                                let m = n as usize;
                                assert(m as int == n);
                                assert(v@.contains(m));
                                let q = choose|q: int| 0 <= q < v@.len() && v@[q] == m;
                                assert(v@[q] as int == n);
                            }
                        }
                    }
                    // the list is never empty: its first piece is a number
                    let p0 = number_value(crate::reference::trim(crate::reference::comma_pieces(ref_rest(s))[0]));
                    assert(p0 is Some);
                    assert(lists_number(ref_rest(s), p0.unwrap()));
                    assert(listed(s).contains(p0.unwrap() as int));
                }
                match self.find_section(name.as_str()) {
                    None => {
                        proof {
                            crate::document::lemma_find_none(self@.sections, name@);
                        }
                        Err(TodoError::SectionNotFound(name))
                    },
                    Some(i) => {
                        proof {
                            lemma_find_unique(self@.sections, name@, i as int);
                        }
                        let count = count_tasks(&self.sections[i].entries);
                        proof {
                            assert(v.len() > 0) by {
                                let n = choose|n: int| listed(s).contains(n);
                                assert(num_set(v@).contains(n));
                            }
                        }
                        let last = v[v.len() - 1];
                        if last > count {
                            proof {
                                assert(num_set(v@).contains(last as int));
                                assert forall|m: int| #[trigger] listed(s).contains(m) && m > count implies m <= last by {
                                    assert(num_set(v@).contains(m));
                                    let q = choose|q: int| 0 <= q < v@.len() && v@[q] as int == m;
                                    if q < v.len() - 1 {
                                        assert(v@[q] < v@[v.len() - 1]);
                                    }
                                }
                            }
                            return Err(TodoError::TaskNotFound(name, last));
                        }
                        if v[0] == 0 {
                            proof {
                                assert(num_set(v@).contains(0));
                                assert forall|m: int| #[trigger] listed(s).contains(m) && m > count implies m <= 0 by {
                                    assert(num_set(v@).contains(m));
                                    let q = choose|q: int| 0 <= q < v@.len() && v@[q] as int == m;
                                    if q < v.len() - 1 {
                                        assert(v@[q] < v@[v.len() - 1]);
                                    }
                                }
                            }
                            return Err(TodoError::TaskNotFound(name, 0));
                        }
                        proof {
                            assert forall|j: int| 0 <= j < v.len() implies 1 <= #[trigger] v@[j] <= count by {
                                if j > 0 {
                                    assert(v@[0] < v@[j]);
                                }
                                if j < v.len() - 1 {
                                    assert(v@[j] < v@[v.len() - 1]);
                                }
                            }
                            assert forall|n: int| #[trigger] listed(s).contains(n) implies 1 <= n <= count by {
                                assert(num_set(v@).contains(n));
                                let q = choose|q: int| 0 <= q < v@.len() && v@[q] as int == n;
                                assert(1 <= v@[q] <= count);
                            }
                        }
                        Ok((i, v))
                    },
                }
            },
        }
    }

    /// Removes the tasks that `task_ref` lists; gives them with their former
    /// numbers, ascending. Nothing changes unless every number names a task.
    pub fn delete_tasks(&mut self, task_ref: &str) -> (r: Result<Vec<(usize, Task)>, TodoError>)
        ensures
            r is Ok <==> multi_ok(old(self)@, task_ref@),
            match r {
                Ok(v) => {
                    &&& picked(v@, old(self)@.sections[found(old(self)@, task_ref@)].entries, listed(task_ref@))
                    &&& final(self)@.header == old(self)@.header
                    &&& final(self)@.sections == without_listed(old(self)@, task_ref@)
                },
                Err(e) => multi_error(old(self)@, task_ref@, e) && final(self)@ == old(self)@,
            },
    {
        match self.locate_many(task_ref) {
            Err(e) => Err(e),
            Ok((i, v)) => {
                let (kept, taken) = split_off(&self.sections[i].entries, &v);
                self.set_entries(i, kept);
                Ok(taken)
            },
        }
    }

    /// Moves the tasks that `task_ref` lists, ascending by number, to the end
    /// of the section named `dest`, appending that section where none matches;
    /// gives them with their former numbers. Nothing changes unless every number names a task.
    pub fn move_tasks(&mut self, task_ref: &str, dest: &str) -> (r: Result<Vec<(usize, Task)>, TodoError>)
        ensures
            r is Ok <==> multi_ok(old(self)@, task_ref@),
            match r {
                Ok(v) => {
                    let mid = without_listed(old(self)@, task_ref@);
                    let di = dest_index(mid, dest@);
                    let ds = dest_sections(mid, dest@);
                    &&& picked(v@, old(self)@.sections[found(old(self)@, task_ref@)].entries, listed(task_ref@))
                    &&& final(self)@.header == old(self)@.header
                    &&& final(self)@.sections == ds.update(
                        di,
                        with_entries(ds[di], ds[di].entries + as_entries(v@.map_values(|p: (usize, Task)| p.1@))),
                    )
                },
                Err(e) => multi_error(old(self)@, task_ref@, e) && final(self)@ == old(self)@,
            },
    {
        match self.locate_many(task_ref) {
            Err(e) => Err(e),
            Ok((i, v)) => {
                let (kept, taken) = split_off(&self.sections[i].entries, &v);
                self.set_entries(i, kept);
                let d = self.get_or_create_section(dest);
                let es = appended(&self.sections[d].entries, &taken);
                self.set_entries(d, es);
                Ok(taken)
            },
        }
    }
}

pub open spec fn all_word() -> Seq<char> {
    seq!['a', 'l', 'l']
}

/// The numbers of the done tasks.
pub open spec fn done_numbers(ts: Seq<TaskView>) -> Set<int> {
    Set::new(|n: int| 1 <= n <= ts.len() && ts[n - 1].done)
}

/// A number that names no task, or a task that is not done.
pub open spec fn unarchivable(ts: Seq<TaskView>, n: int) -> bool {
    n < 1 || n > ts.len() || !ts[n - 1].done
}

pub open spec fn found_tasks(d: DocView, s: Seq<char>) -> Seq<TaskView> {
    tasks_of(d.sections[found(d, s)].entries)
}

/// A reference that archiving accepts: `Section:all`, or numbers of done tasks of the section.
pub open spec fn archive_ok(d: DocView, s: Seq<char>) -> bool {
    &&& has_colon(s)
    &&& self_find(d.sections, ref_name(s)) is Some
    &&& (ref_rest(s) == all_word() || (all_numbers(ref_rest(s)) && forall|n: int|
        #[trigger] listed(s).contains(n) ==> !unarchivable(found_tasks(d, s), n)))
}

/// The numbers of the tasks that archiving takes.
pub open spec fn archive_selection(d: DocView, s: Seq<char>) -> Set<int> {
    if ref_rest(s) == all_word() {
        done_numbers(found_tasks(d, s))
    } else {
        listed(s)
    }
}

/// The error that archiving gives: for a list, the largest number that names
/// no task or a task not done.
pub open spec fn archive_error(d: DocView, s: Seq<char>, e: TodoError) -> bool {
    if !has_colon(s) {
        e == TodoError::InvalidReference
    } else if self_find(d.sections, ref_name(s)) is None {
        e matches TodoError::SectionNotFound(n) && n@ == ref_name(s)
    } else if !all_numbers(ref_rest(s)) {
        e == TodoError::InvalidNumber
    } else {
        let ts = found_tasks(d, s);
        match e {
            TodoError::TaskNotFound(n, k) => n@ == ref_name(s) && (k < 1 || k > ts.len())
                && largest_unarchivable(listed(s), ts, k as int),
            TodoError::NotCompleted(n, k) => n@ == ref_name(s) && 1 <= k <= ts.len() && !ts[k - 1].done
                && largest_unarchivable(listed(s), ts, k as int),
            _ => false,
        }
    }
}

pub open spec fn largest_unarchivable(nums: Set<int>, ts: Seq<TaskView>, k: int) -> bool {
    &&& nums.contains(k)
    &&& forall|m: int| #[trigger] nums.contains(m) && unarchivable(ts, m) ==> m <= k
}

fn done_list(ts: &Vec<Task>) -> (r: Vec<usize>)
    ensures
        num_set(r@) == done_numbers(ts@.map_values(|t: Task| t@)),
        forall|j: int| 0 <= j < r.len() ==> 1 <= #[trigger] r@[j] <= ts.len(),
{
    let ghost tv = ts@.map_values(|t: Task| t@);
    let mut r: Vec<usize> = Vec::new();
    let mut i: usize = 0;
    while i < ts.len()
        invariant
            i <= ts.len(),
            tv == ts@.map_values(|t: Task| t@),
            forall|j: int| 0 <= j < r.len() ==> 1 <= #[trigger] r@[j] <= i,
            forall|n: int| num_set(r@).contains(n) <==> (1 <= n <= i && tv[n - 1].done),
        decreases ts.len() - i,
    {
        let ghost old_r = r@;
        if ts[i].done {
            r.push(i + 1);
        }
        proof {
            assert forall|n: int| num_set(r@).contains(n) <==> (1 <= n <= i + 1 && tv[n - 1].done) by {
                if num_set(r@).contains(n) {
                    let q = choose|q: int| 0 <= q < r@.len() && r@[q] as int == n;
                    if q < old_r.len() {
                        assert(old_r[q] == r@[q]);
                        assert(num_set(old_r).contains(n));
                    }
                }
                if 1 <= n <= i && tv[n - 1].done {
                    assert(num_set(old_r).contains(n));
                    let q = choose|q: int| 0 <= q < old_r.len() && old_r[q] as int == n;
                    assert(r@[q] == old_r[q]);
                }
                if n == i + 1 && tv[n - 1].done {
                    assert(r@[old_r.len() as int] as int == n);
                }
            }
        }
        i = i + 1;
    }
    proof {
        assert(num_set(r@) =~= done_numbers(tv));
    }
    r
}

impl TodoFile {
    /// Takes the tasks that an archive reference selects out of their section:
    /// `Section:all` takes every done task, `Section:numbers` the listed ones,
    /// which must all be done. Gives them with their former numbers, ascending.
    pub fn take_archived(&mut self, task_ref: &str) -> (r: Result<Vec<(usize, Task)>, TodoError>)
        ensures
            r is Ok <==> archive_ok(old(self)@, task_ref@),
            match r {
                Ok(v) => {
                    let sel = archive_selection(old(self)@, task_ref@);
                    let i = found(old(self)@, task_ref@);
                    &&& picked(v@, old(self)@.sections[i].entries, sel)
                    &&& final(self)@.header == old(self)@.header
                    &&& final(self)@.sections == old(self)@.sections.update(
                        i,
                        with_entries(old(self)@.sections[i], remove_tasks(old(self)@.sections[i].entries, sel)),
                    )
                },
                Err(e) => archive_error(old(self)@, task_ref@, e) && final(self)@ == old(self)@,
            },
    {
        let s = chars_of(task_ref);
        let c = match crate::reference::find_colon(&s) {
            None => {
                return Err(TodoError::InvalidReference);
            },
            Some(c) => c,
        };
        proof {
            lemma_colon_unique(task_ref@, c as int);
            assert(c < s@.len());
        }
        let name = crate::text::slice_of(&s, 0, c);
        let rest = crate::text::slice_of(&s, c + 1, s.len());
        proof {
            assert(name@ =~= ref_name(task_ref@));
            assert(rest@ =~= ref_rest(task_ref@));
        }
        let name = crate::text::string_of(&name);
        let i = match self.find_section(name.as_str()) {
            None => {
                proof {
                    crate::document::lemma_find_none(self@.sections, name@);
                }
                return Err(TodoError::SectionNotFound(name));
            },
            Some(i) => i,
        };
        proof {
            lemma_find_unique(self@.sections, name@, i as int);
        }
        let ts = self.sections[i].tasks();
        let ghost tv = ts@.map_values(|t: Task| t@);
        let mut word: Vec<char> = Vec::new();
        word.push('a');
        word.push('l');
        word.push('l');
        proof {
            assert(word@ =~= all_word());
        }
        let nums = if crate::text::same_chars(&rest, &word) {
            done_list(&ts)
        } else {
            let rest_str = crate::text::string_of(&rest);
            let v = match parse_numbers(rest_str.as_str()) {
                Err(e) => {
                    return Err(e);
                },
                Ok(v) => v,
            };
            proof {
                let s2 = task_ref@;
                assert(num_set(v@) =~= listed(s2)) by {
                    assert forall|n: int| num_set(v@).contains(n) <==> listed(s2).contains(n) by {
                        if num_set(v@).contains(n) {
                            let q = choose|q: int| 0 <= q < v@.len() && v@[q] as int == n;
                            assert(v@.contains(v@[q]));
                        }
                        if listed(s2).contains(n) {
                            let w = choose|w: int| 0 <= w < crate::reference::comma_pieces(ref_rest(s2)).len() && #[trigger] number_value(crate::reference::trim(crate::reference::comma_pieces(ref_rest(s2))[w])) == Some(n as nat);
                            let m = n as usize;
                            assert(v@.contains(m));
                            let q = choose|q: int| 0 <= q < v@.len() && v@[q] == m;
                            assert(v@[q] as int == n);
                        }
                    }
                }
            }
            let mut j: usize = v.len();
            while j > 0
                invariant
                    j <= v.len(),
                    tv == ts@.map_values(|t: Task| t@),
                    tv == found_tasks(old(self)@, task_ref@),
                    self@ == old(self)@,
                    increasing(v@),
                    num_set(v@) == listed(task_ref@),
                    all_numbers(ref_rest(task_ref@)),
                    ref_rest(task_ref@) != all_word(),
                    name@ == ref_name(task_ref@),
                    has_colon(task_ref@),
                    self_find(self@.sections, ref_name(task_ref@)) is Some,
                    forall|q: int| j <= q < v.len() ==> !unarchivable(tv, #[trigger] v@[q] as int),
                decreases j,
            {
                let n = v[j - 1];
                if n == 0 || n > ts.len() {
                    proof {
                        assert forall|m: int| #[trigger] num_set(v@).contains(m) && unarchivable(tv, m) implies m <= n by {
                            let q = choose|q: int| 0 <= q < v@.len() && v@[q] as int == m;
                            if q > j - 1 {
                                assert(!unarchivable(tv, v@[q] as int));
                            }
                            if q < j - 1 {
                                assert(v@[q] < v@[j - 1]);
                            }
                        }
                        assert(num_set(v@).contains(n as int));
                    }
                    return Err(TodoError::TaskNotFound(name, n));
                }
                if !ts[n - 1].done {
                    proof {
                        assert(tv[n - 1] == ts@[n - 1]@);
                        assert forall|m: int| #[trigger] num_set(v@).contains(m) && unarchivable(tv, m) implies m <= n by {
                            let q = choose|q: int| 0 <= q < v@.len() && v@[q] as int == m;
                            if q > j - 1 {
                                assert(!unarchivable(tv, v@[q] as int));
                            }
                            if q < j - 1 {
                                assert(v@[q] < v@[j - 1]);
                            }
                        }
                        assert(num_set(v@).contains(n as int));
                    }
                    return Err(TodoError::NotCompleted(name, n));
                }
                proof {
                    assert(tv[n - 1] == ts@[n - 1]@);
                }
                j = j - 1;
            }
            proof {
                assert forall|n: int| #[trigger] listed(task_ref@).contains(n) implies !unarchivable(tv, n) by {
                    assert(num_set(v@).contains(n));
                    let q = choose|q: int| 0 <= q < v@.len() && v@[q] as int == n;
                    assert(!unarchivable(tv, v@[q] as int));
                }
                assert forall|q: int| 0 <= q < v.len() implies 1 <= #[trigger] v@[q] <= ts.len() by {
                    assert(!unarchivable(tv, v@[q] as int));
                }
            }
            v
        };
        proof {
            assert(num_set(nums@) == archive_selection(self@, task_ref@));
        }
        let (kept, taken) = split_off(&self.sections[i].entries, &nums);
        self.set_entries(i, kept);
        Ok(taken)
    }
}

// ---------------------------------------------------------------- laws

proof fn lemma_replace_count(es: Seq<EntryView>, k: int, t: TaskView)
    ensures
        tasks_of(replace_task(es, k, t)).len() == tasks_of(es).len(),
        0 <= k < tasks_of(es).len() ==> tasks_of(replace_task(es, k, t)) == tasks_of(es).update(k, t),
        !(0 <= k < tasks_of(es).len()) ==> tasks_of(replace_task(es, k, t)) == tasks_of(es),
    decreases es.len(),
{
    if es.len() > 0 {
        let front = es.drop_last();
        lemma_replace_count(front, k, t);
        let rf = replace_task(front, k, t);
        match es.last() {
            EntryView::Task(u) => {
                if tasks_of(front).len() == k {
                    lemma_tasks_push(rf, EntryView::Task(t));
                    assert(tasks_of(front).push(u).update(k, t) =~= tasks_of(front).push(t));
                } else {
                    lemma_tasks_push(rf, es.last());
                    if 0 <= k < tasks_of(front).len() {
                        assert(tasks_of(front).update(k, t).push(u) =~= tasks_of(front).push(u).update(k, t));
                    }
                }
            },
            EntryView::Line(_) => {
                lemma_tasks_push(rf, es.last());
            },
        }
    }
}

proof fn lemma_replace_twice(es: Seq<EntryView>, k: int, t1: TaskView, t2: TaskView)
    ensures
        replace_task(replace_task(es, k, t1), k, t2) == replace_task(es, k, t2),
    decreases es.len(),
{
    if es.len() > 0 {
        let front = es.drop_last();
        lemma_replace_twice(front, k, t1, t2);
        lemma_replace_count(front, k, t1);
        let r1 = replace_task(es, k, t1);
        assert(r1.drop_last() =~= replace_task(front, k, t1));
    }
}

proof fn lemma_first_exists(ss: Seq<SectionView>, name: Seq<char>)
    requires
        !no_match(ss, name),
    ensures
        exists|i: int| first_match(ss, name, i),
    decreases ss.len(),
{
    let front = ss.drop_last();
    if no_match(front, name) {
        let j = choose|j: int| 0 <= j < ss.len() && crate::document::names_match(#[trigger] ss[j].name, name);
        if j < front.len() {
            assert(front[j] == ss[j]);
        }
        assert forall|q: int| 0 <= q < ss.len() - 1 implies !crate::document::names_match(#[trigger] ss[q].name, name) by {
            assert(front[q] == ss[q]);
        }
        assert(first_match(ss, name, ss.len() - 1));
    } else {
        lemma_first_exists(front, name);
        let i = choose|i: int| first_match(front, name, i);
        assert forall|q: int| 0 <= q < i implies !crate::document::names_match(#[trigger] ss[q].name, name) by {
            assert(front[q] == ss[q]);
        }
        assert(front[i] == ss[i]);
        assert(first_match(ss, name, i));
    }
}

proof fn lemma_same_names_find(a: Seq<SectionView>, b: Seq<SectionView>, name: Seq<char>)
    requires
        a.len() == b.len(),
        forall|i: int| 0 <= i < a.len() ==> (#[trigger] a[i]).name == b[i].name,
    ensures
        self_find(a, name) == self_find(b, name),
{
    if no_match(a, name) {
        assert forall|j: int| 0 <= j < b.len() implies !crate::document::names_match(#[trigger] b[j].name, name) by {
            assert(a[j].name == b[j].name);
        }
    } else {
        lemma_first_exists(a, name);
        let i = choose|i: int| first_match(a, name, i);
        assert(first_match(a, name, i));
        assert(a[i].name == b[i].name);
        assert forall|j: int| 0 <= j < i implies !crate::document::names_match(#[trigger] b[j].name, name) by {
            assert(a[j].name == b[j].name);
        }
        assert(first_match(b, name, i));
        lemma_find_unique(a, name, i);
        lemma_find_unique(b, name, i);
    }
}

/// Marking a task done and then open again leaves the document as it was,
/// but for that task, which is open, without a date, with its text unchanged;
/// every other task of the section keeps its place and its value.
pub proof fn lemma_done_then_undone(d: DocView, s: Seq<char>, date: Seq<char>)
    requires
        single_ok(d, s),
    ensures
        ({
            let t = old_task(d, s);
            let d1 = DocView {
                header: d.header,
                sections: with_task(d, s, TaskView { text: t.text, done: true, done_date: Some(date) }),
            };
            let open = TaskView { text: t.text, done: false, done_date: None };
            let i = found(d, s);
            let k = number_value(ref_rest(s)).unwrap() - 1;
            &&& single_ok(d1, s)
            &&& old_task(d1, s).text == t.text
            &&& with_task(d1, s, TaskView { text: old_task(d1, s).text, done: false, done_date: None })
                == with_task(d, s, open)
            &&& tasks_of(with_task(d, s, open)[i].entries) == tasks_of(d.sections[i].entries).update(
                k,
                open,
            )
        }),
{
    let t = old_task(d, s);
    let t1 = TaskView { text: t.text, done: true, done_date: Some(date) };
    let open = TaskView { text: t.text, done: false, done_date: None };
    let d1 = DocView { header: d.header, sections: with_task(d, s, t1) };
    let i = found(d, s);
    let k = number_value(ref_rest(s)).unwrap() - 1;
    let es = d.sections[i].entries;
    assert(0 <= i < d.sections.len()) by {
        lemma_first_exists(d.sections, ref_name(s));
        let c = choose|c: int| first_match(d.sections, ref_name(s), c);
        assert(first_match(d.sections, ref_name(s), c));
    }
    lemma_same_names_find(d.sections, d1.sections, ref_name(s));
    lemma_replace_count(es, k, t1);
    lemma_replace_count(es, k, open);
    assert(found(d1, s) == i);
    assert(d1.sections[i].entries == replace_task(es, k, t1));
    assert(old_task(d1, s) == t1);
    lemma_replace_twice(es, k, t1, open);
    assert(with_task(d1, s, open) =~= with_task(d, s, open));
}

/// Archiving by numbers fails, and so changes nothing, as soon as one of the
/// listed numbers names a task of the section that is not done.
pub proof fn lemma_archive_open_task_refused(d: DocView, s: Seq<char>, n: int)
    requires
        has_colon(s),
        ref_rest(s) != all_word(),
        listed(s).contains(n),
        1 <= n <= found_tasks(d, s).len(),
        !found_tasks(d, s)[n - 1].done,
    ensures
        !archive_ok(d, s),
{
    assert(unarchivable(found_tasks(d, s), n));
}

/// The tasks of a list but those whose numbers are in `nums`.
pub open spec fn keep_tasks(ts: Seq<TaskView>, nums: Set<int>) -> Seq<TaskView>
    decreases ts.len(),
{
    if ts.len() == 0 {
        Seq::empty()
    } else if nums.contains(ts.len() as int) {
        keep_tasks(ts.drop_last(), nums)
    } else {
        keep_tasks(ts.drop_last(), nums).push(ts.last())
    }
}

/// Removing tasks by number leaves the other tasks, in order.
pub proof fn lemma_remove_keep(es: Seq<EntryView>, nums: Set<int>)
    ensures
        tasks_of(remove_tasks(es, nums)) == keep_tasks(tasks_of(es), nums),
    decreases es.len(),
{
    if es.len() > 0 {
        let front = es.drop_last();
        lemma_remove_keep(front, nums);
        let rf = remove_tasks(front, nums);
        match es.last() {
            EntryView::Task(t) => {
                let ts = tasks_of(front).push(t);
                assert(ts.drop_last() =~= tasks_of(front));
                if !nums.contains(tasks_of(front).len() + 1 as int) {
                    lemma_tasks_push(rf, es.last());
                }
            },
            EntryView::Line(_) => {
                lemma_tasks_push(rf, es.last());
            },
        }
    }
}

/// Appending tasks as entries appends them to the tasks.
pub proof fn lemma_tasks_append(es: Seq<EntryView>, ts: Seq<TaskView>)
    ensures
        tasks_of(es + as_entries(ts)) == tasks_of(es) + ts,
    decreases ts.len(),
{
    if ts.len() == 0 {
        assert(es + as_entries(ts) =~= es);
        assert(tasks_of(es) + ts =~= tasks_of(es));
    } else {
        let f = ts.drop_last();
        lemma_tasks_append(es, f);
        assert(es + as_entries(ts) =~= (es + as_entries(f)).push(EntryView::Task(ts.last())));
        lemma_tasks_push(es + as_entries(f), EntryView::Task(ts.last()));
        assert(tasks_of(es) + ts =~= (tasks_of(es) + f).push(ts.last()));
    }
}

proof fn lemma_picked_in(v: Seq<(usize, Task)>, es: Seq<EntryView>, nums: Set<int>, j: int)
    requires
        picked(v, es, nums),
        0 <= j < v.len(),
    ensures
        nums.contains(v[j].0 as int),
{
}

/// The tasks of a list of numbered tasks.
pub open spec fn moved_tasks(v: Seq<(usize, Task)>) -> Seq<TaskView> {
    v.map_values(|p: (usize, Task)| p.1@)
}

/// Tasks removed and then appended elsewhere: moving the tasks numbered 1 and
/// 3 of a section of three hands them back in that order, leaves the section
/// with its second task alone, and appends the two, in that order, after the
/// tasks of whatever section receives them.
pub proof fn lemma_move_first_and_third(d: DocView, s: Seq<char>, v: Seq<(usize, Task)>)
    requires
        multi_ok(d, s),
        listed(s) == set![1int, 3int],
        found_tasks(d, s).len() == 3,
        picked(v, d.sections[found(d, s)].entries, listed(s)),
    ensures
        ({
            let ts = found_tasks(d, s);
            &&& moved_tasks(v) == seq![ts[0], ts[2]]
            &&& tasks_of(without_listed(d, s)[found(d, s)].entries) == seq![ts[1]]
            &&& forall|es: Seq<EntryView>|
                #[trigger] tasks_of(es + as_entries(moved_tasks(v)))
                    == tasks_of(es) + seq![ts[0], ts[2]]
        }),
{
    let ts = found_tasks(d, s);
    let i = found(d, s);
    let nums = listed(s);
    assert(0 <= i < d.sections.len()) by {
        lemma_first_exists(d.sections, ref_name(s));
        let c = choose|c: int| first_match(d.sections, ref_name(s), c);
        assert(first_match(d.sections, ref_name(s), c));
    }
    assert(nums.contains(1int) && nums.contains(3int));
    // the two numbers come back, ascending
    assert(exists|j: int| 0 <= j < v.len() && v[j].0 == 1);
    assert(exists|j: int| 0 <= j < v.len() && v[j].0 == 3);
    let j1 = choose|j: int| 0 <= j < v.len() && v[j].0 == 1;
    let j3 = choose|j: int| 0 <= j < v.len() && v[j].0 == 3;
    assert forall|j: int| 0 <= j < v.len() implies v[j].0 == 1 || v[j].0 == 3 by {
        lemma_picked_in(v, d.sections[i].entries, nums, j);
    }
    if j3 < j1 {
        assert(v[j3].0 < v[j1].0);
    }
    assert(v.len() == 2) by {
        if v.len() > 2 {
            assert(v[0].0 < v[1].0 && v[1].0 < v[2].0);
        }
    }
    assert(j1 == 0 && j3 == 1);
    let vv = moved_tasks(v);
    assert(vv =~= seq![ts[0], ts[2]]);
    // the second task stays
    lemma_remove_keep(d.sections[i].entries, nums);
    assert(without_listed(d, s)[i].entries == remove_tasks(d.sections[i].entries, nums));
    let t3 = ts;
    let t2 = ts.drop_last();
    let t1 = t2.drop_last();
    let t0 = t1.drop_last();
    assert(t0 =~= Seq::<TaskView>::empty());
    assert(keep_tasks(t0, nums) =~= Seq::<TaskView>::empty());
    assert(!nums.contains(2int)) by {
        if nums.contains(2int) {
            assert(set![1int, 3int].contains(2int));
        }
    }
    assert(t1.len() == 1 && t2.len() == 2);
    assert(keep_tasks(t1, nums) == keep_tasks(t0, nums));
    assert(keep_tasks(t1, nums) =~= Seq::<TaskView>::empty());
    assert(t2.last() == ts[1]);
    assert(keep_tasks(t2, nums) == keep_tasks(t1, nums).push(t2.last()));
    assert(keep_tasks(t2, nums) =~= seq![ts[1]]);
    assert(keep_tasks(t3, nums) == keep_tasks(t2, nums));
    assert(keep_tasks(t3, nums) =~= seq![ts[1]]);
    assert forall|es: Seq<EntryView>|
        #[trigger] tasks_of(es + as_entries(vv)) == tasks_of(es) + seq![ts[0], ts[2]] by {
        lemma_tasks_append(es, vv);
    }
}

/// Deleting the second task of a section of three hands it back and leaves
/// the first and the third, which the next listing numbers 1 and 2.
pub proof fn lemma_delete_second_of_three(d: DocView, s: Seq<char>, v: Seq<(usize, Task)>)
    requires
        multi_ok(d, s),
        listed(s) == set![2int],
        found_tasks(d, s).len() == 3,
        picked(v, d.sections[found(d, s)].entries, listed(s)),
    ensures
        ({
            let ts = found_tasks(d, s);
            &&& v.len() == 1
            &&& v[0].0 == 2
            &&& v[0].1@ == ts[1]
            &&& tasks_of(without_listed(d, s)[found(d, s)].entries) == seq![ts[0], ts[2]]
        }),
{
    let ts = found_tasks(d, s);
    let i = found(d, s);
    let nums = listed(s);
    assert(0 <= i < d.sections.len()) by {
        lemma_first_exists(d.sections, ref_name(s));
        let c = choose|c: int| first_match(d.sections, ref_name(s), c);
        assert(first_match(d.sections, ref_name(s), c));
    }
    assert(nums.contains(2int));
    let j2 = choose|j: int| 0 <= j < v.len() && v[j].0 == 2;
    assert forall|j: int| 0 <= j < v.len() implies v[j].0 == 2 by {
        lemma_picked_in(v, d.sections[i].entries, nums, j);
    }
    assert(v.len() == 1) by {
        if v.len() > 1 {
            assert(v[0].0 < v[1].0);
        }
    }
    lemma_remove_keep(d.sections[i].entries, nums);
    let t3 = ts;
    let t2 = ts.drop_last();
    let t1 = t2.drop_last();
    let t0 = t1.drop_last();
    assert(t0 =~= Seq::<TaskView>::empty());
    assert(keep_tasks(t0, nums) =~= Seq::<TaskView>::empty());
    assert(!nums.contains(1int) && !nums.contains(3int)) by {
        if nums.contains(1int) {
            assert(set![2int].contains(1int));
        }
        if nums.contains(3int) {
            assert(set![2int].contains(3int));
        }
    }
    assert(t1.len() == 1 && t2.len() == 2);
    assert(t1.last() == ts[0] && t3.last() == ts[2]);
    assert(keep_tasks(t1, nums) == keep_tasks(t0, nums).push(t1.last()));
    assert(keep_tasks(t1, nums) =~= seq![ts[0]]);
    assert(keep_tasks(t2, nums) == keep_tasks(t1, nums));
    assert(keep_tasks(t2, nums) =~= seq![ts[0]]);
    assert(keep_tasks(t3, nums) == keep_tasks(t2, nums).push(t3.last()));
    assert(keep_tasks(t3, nums) =~= seq![ts[0], ts[2]]);
}
} // verus!
