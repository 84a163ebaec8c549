use crate::date::{date_of, date_text, lemma_date_text_round_trip, parse_date, push_date_text, CalDate};
use crate::text::{
    chars_of, flush, int_of, int_text, is_word, is_ws, join, join_words, lemma_int_text_round_trip,
    lemma_words_concat, lemma_words_join, lemma_words_space_word, parse_int, push_int_text,
    split_words, string_of, words, words_from,
};
use vstd::prelude::*;

verus! {

/// Why an operation on the task files could not be carried out.
#[derive(PartialEq, Eq, Structural, Clone, Copy, Debug)]
pub enum TaskError {
    /// A task line whose id token is not an integer.
    MalformedRecord,
    /// No task carries the requested id.
    NotFound,
    /// The file a task should move to does not exist.
    NoDestination,
    /// No id is left above the largest one in use.
    IdOverflow,
}

/// One to-do item, written as one line of a markdown file.
#[derive(Clone, Debug, PartialEq, Eq)]
pub struct Task {
    pub is_done: bool,
    /// `-1` where no id has been assigned.
    pub id: i32,
    pub title: String,
    pub date: Option<CalDate>,
    /// Each label keeps its leading `@`.
    pub labels: Vec<String>,
}

pub struct TaskView {
    pub done: bool,
    pub id: int,
    pub title: Seq<char>,
    pub date: Option<CalDate>,
    pub labels: Seq<Seq<char>>,
}

impl View for Task {
    type V = TaskView;

    open spec fn view(&self) -> TaskView {
        TaskView {
            done: self.is_done,
            id: self.id as int,
            title: self.title@,
            date: self.date,
            labels: self.labels.deep_view(),
        }
    }
}

/// `- [x]` for a done task, `- [ ]` for one still open.
pub open spec fn marker(done: bool) -> Seq<char> {
    seq!['-', ' ', '[', if done { 'x' } else { ' ' }, ']']
}

pub open spec fn starts_with_marker(line: Seq<char>) -> bool {
    line.len() >= 5 && (line.take(5) == marker(true) || line.take(5) == marker(false))
}

/// What the words after the id sort into.
pub struct Fields {
    pub title: Seq<Seq<char>>,
    pub date: Option<CalDate>,
    pub labels: Seq<Seq<char>>,
}

/// One word sorted: the first `%` word that spells a date is the due date,
/// an `@` word is a label, anything else belongs to the title.
pub open spec fn absorb(f: Fields, w: Seq<char>) -> Fields {
    if w.len() > 0 && w[0] == '%' && f.date is None && date_of(w.skip(1)) is Some {
        Fields { date: date_of(w.skip(1)), ..f }
    } else if w.len() > 0 && w[0] == '@' {
        Fields { labels: f.labels.push(w), ..f }
    } else {
        Fields { title: f.title.push(w), ..f }
    }
}

pub open spec fn classify(f: Fields, ws: Seq<Seq<char>>) -> Fields
    decreases ws.len(),
{
    if ws.len() == 0 {
        f
    } else {
        absorb(classify(f, ws.drop_last()), ws.last())
    }
}

pub open spec fn no_fields(title: Seq<Seq<char>>) -> Fields {
    Fields { title, date: None, labels: seq![] }
}

pub open spec fn make_task(done: bool, id: int, f: Fields) -> TaskView {
    TaskView { done, id, title: join(f.title), date: f.date, labels: f.labels }
}

/// The task that a line holds: `Ok(None)` for a line that does not begin with
/// a status marker, an error for a task line whose id token is not an integer.
/// A marker with nothing after it is a task without id, title, date or labels.
pub open spec fn decode(line: Seq<char>) -> Result<Option<TaskView>, TaskError> {
    if !starts_with_marker(line) {
        Ok(None)
    } else {
        let done = line.take(5) == marker(true);
        let ws = words(line.skip(5));
        if ws.len() == 0 {
            Ok(Some(make_task(done, -1, no_fields(seq![]))))
        } else if ws[0][0] == '&' {
            match int_of(ws[0].skip(1)) {
                None => Err(TaskError::MalformedRecord),
                Some(id) => Ok(Some(make_task(done, id, classify(no_fields(seq![]), ws.skip(1))))),
            }
        } else {
            Ok(Some(make_task(done, -1, classify(no_fields(seq![ws[0]]), ws.skip(1)))))
        }
    }
}

pub open spec fn date_part(d: Option<CalDate>) -> Seq<char> {
    match d {
        Some(d) => seq![' ', '%'] + date_text(d),
        None => seq![],
    }
}

/// Each label after a space.
pub open spec fn labels_text(ls: Seq<Seq<char>>) -> Seq<char>
    decreases ls.len(),
{
    if ls.len() == 0 {
        seq![]
    } else {
        labels_text(ls.drop_last()) + seq![' '] + ls.last()
    }
}

/// The line of a task: marker, id, title, due date, labels.
pub open spec fn encode(t: TaskView) -> Seq<char> {
    marker(t.done) + seq![' ', '&'] + int_text(t.id) + seq![' '] + t.title + date_part(t.date)
        + labels_text(t.labels)
}

/// A title word that reads back as a title word.
pub open spec fn title_word_ok(w: Seq<char>) -> bool {
    &&& is_word(w)
    &&& w[0] != '@'
    &&& !(w[0] == '%' && date_of(w.skip(1)) is Some)
}

impl TaskView {
    /// The id fits the line format's integer.
    pub open spec fn id_fits(self) -> bool {
        i32::MIN <= self.id <= i32::MAX
    }

    /// A task in the form its line gives back unchanged: words of the title
    /// separated by single spaces, none of them a label or a date; labels that
    /// are single words beginning with `@`; a real due date.
    pub open spec fn wf(self) -> bool {
        &&& self.id_fits()
        &&& self.title == join(words(self.title))
        &&& forall|i: int|
            0 <= i < words(self.title).len() ==> title_word_ok(#[trigger] words(self.title)[i])
        &&& forall|i: int|
            0 <= i < self.labels.len() ==> is_word(#[trigger] self.labels[i]) && self.labels[i][0]
                == '@'
        &&& self.date matches Some(d) ==> d.wf()
    }
}

fn copy_from(cs: &Vec<char>, from: usize) -> (r: Vec<char>)
    requires
        from <= cs@.len(),
    ensures
        r@ == cs@.skip(from as int),
{
    let mut out: Vec<char> = Vec::new();
    let mut i = from;
    while i < cs.len()
        invariant
            from <= i <= cs@.len(),
            out@ == cs@.subrange(from as int, i as int),
        decreases cs.len() - i,
    {
        out.push(cs[i]);
        i += 1;
        assert(out@ =~= cs@.subrange(from as int, i as int));
    }
    assert(out@ =~= cs@.skip(from as int));
    out
}

fn marker_at_start(cs: &Vec<char>, done: bool) -> (r: bool)
    requires
        cs@.len() >= 5,
    ensures
        r == (cs@.take(5) == marker(done)),
{
    let mid = if done {
        'x'
    } else {
        ' '
    };
    let r = cs[0] == '-' && cs[1] == ' ' && cs[2] == '[' && cs[3] == mid && cs[4] == ']';
    proof {
        if r {
            assert(cs@.take(5) =~= marker(done));
        } else {
            if cs@.take(5) == marker(done) {
                assert(cs@.take(5)[3] == marker(done)[3]);
            }
        }
    }
    r
}

/// Reads the task that `line` holds. A line that does not begin with `- [ ]` or
/// `- [x]` is no task; one that holds nothing after the marker is a task with
/// id `-1` and an empty title.
pub fn parse_task(line: &str) -> (r: Result<Option<Task>, TaskError>)
    ensures
        match r {
            Ok(Some(t)) => decode(line@) == Ok::<Option<TaskView>, TaskError>(Some(t@)),
            Ok(None) => decode(line@) == Ok::<Option<TaskView>, TaskError>(None),
            Err(e) => decode(line@) == Err::<Option<TaskView>, TaskError>(e),
        },
{
    let cs = chars_of(line);
    if cs.len() < 5 {
        return Ok(None);
    }
    let is_done = marker_at_start(&cs, true);
    if !is_done && !marker_at_start(&cs, false) {
        return Ok(None);
    }
    let ws = split_words(&cs, 5);
    let ghost wsv = ws.deep_view();
    if ws.len() == 0 {
        let title = String::new();
        let labels: Vec<String> = Vec::new();
        assert(join(Seq::<Seq<char>>::empty()) =~= title@);
        assert(labels.deep_view() =~= Seq::<Seq<char>>::empty());
        return Ok(Some(Task { is_done, id: -1, title, date: None, labels }));
    }
    assert(ws[0]@ =~= wsv[0]);
    let mut id: i32 = -1;
    let mut title: Vec<Vec<char>> = Vec::new();
    if ws[0].len() > 0 && ws[0][0] == '&' {
        match parse_int(&ws[0], 1) {
            None => {
                return Err(TaskError::MalformedRecord);
            },
            Some(v) => {
                id = v;
            },
        }
    } else {
        proof {
            assert(words(cs@.skip(5)).len() > 0);
            lemma_words_nonempty(cs@.skip(5));
        }
        title.push(copy_from(&ws[0], 0));
        assert(ws[0]@.skip(0) =~= ws[0]@);
    }
    let ghost f0 = if id == -1 && !(wsv[0][0] == '&') {
        no_fields(seq![wsv[0]])
    } else {
        no_fields(seq![])
    };
    assert(title.deep_view() =~= f0.title);
    let mut date: Option<CalDate> = None;
    let mut labels: Vec<String> = Vec::new();
    let mut i: usize = 1;
    while i < ws.len()
        invariant
            1 <= i <= ws@.len(),
            wsv == ws.deep_view(),
            ({
                let f = classify(f0, wsv.skip(1).take(i - 1));
                &&& title.deep_view() == f.title
                &&& date == f.date
                &&& labels.deep_view() == f.labels
            }),
        decreases ws.len() - i,
    {
        let ghost before = wsv.skip(1).take(i - 1);
        let ghost after = wsv.skip(1).take(i as int);
        assert(after.drop_last() =~= before);
        assert(after.last() == wsv[i as int]);
        let w = &ws[i];
        assert(w@ =~= wsv[i as int]);
        let mut placed = false;
        if w.len() > 0 && w[0] == '%' && date.is_none() {
            let rest = copy_from(w, 1);
            let text = string_of(&rest);
            match parse_date(text.as_str()) {
                Some(d) => {
                    date = Some(d);
                    placed = true;
                },
                None => {},
            }
        }
        if !placed {
            if w.len() > 0 && w[0] == '@' {
                let ghost lv = labels.deep_view();
                labels.push(string_of(w));
                assert(labels.deep_view() =~= lv.push(w@));
            } else {
                let ghost tv = title.deep_view();
                let cw = copy_from(w, 0);
                assert(cw@ =~= w@);
                title.push(cw);
                assert(title.deep_view() =~~= tv.push(w@));
            }
        }
        i += 1;
    }
    assert(wsv.skip(1).take(i - 1) =~= wsv.skip(1));
    let title_text = string_of(&join_words(&title));
    Ok(Some(Task { is_done, id, title: title_text, date, labels }))
}

proof fn lemma_words_nonempty_from(s: Seq<char>, cur: Seq<char>)
    ensures
        forall|i: int|
            0 <= i < words_from(s, cur).len() ==> (#[trigger] words_from(s, cur)[i]).len() > 0,
    decreases s.len(),
{
    if s.len() == 0 {
        assert(words_from(s, cur) == flush(cur));
        if cur.len() > 0 {
            assert(flush(cur)[0] == cur);
        }
    } else if is_ws(s[0]) {
        lemma_words_nonempty_from(s.drop_first(), seq![]);
        let a = flush(cur);
        let b = words_from(s.drop_first(), seq![]);
        assert(words_from(s, cur) == a + b);
        assert forall|i: int| 0 <= i < (a + b).len() implies (#[trigger] (a + b)[i]).len() > 0 by {
            if i >= a.len() {
                assert((a + b)[i] == b[i - a.len()]);
            } else {
                assert(a[i] == cur);
            }
        }
    } else {
        lemma_words_nonempty_from(s.drop_first(), cur.push(s[0]));
        assert(words_from(s, cur) == words_from(s.drop_first(), cur.push(s[0])));
    }
}

/// Every word has at least one character.
pub proof fn lemma_words_nonempty(s: Seq<char>)
    ensures
        forall|i: int| 0 <= i < words(s).len() ==> (#[trigger] words(s)[i]).len() > 0,
{
    lemma_words_nonempty_from(s, seq![]);
}

proof fn lemma_classify_concat(f: Fields, a: Seq<Seq<char>>, b: Seq<Seq<char>>)
    ensures
        classify(f, a + b) == classify(classify(f, a), b),
    decreases b.len(),
{
    if b.len() == 0 {
        assert(a + b =~= a);
    } else {
        assert((a + b).drop_last() =~= a + b.drop_last());
        assert((a + b).last() == b.last());
        lemma_classify_concat(f, a, b.drop_last());
    }
}

proof fn lemma_classify_title(f: Fields, ws: Seq<Seq<char>>)
    requires
        forall|i: int| 0 <= i < ws.len() ==> title_word_ok(#[trigger] ws[i]),
    ensures
        classify(f, ws) == (Fields { title: f.title + ws, ..f }),
    decreases ws.len(),
{
    if ws.len() == 0 {
        assert(f.title + ws =~= f.title);
    } else {
        assert(title_word_ok(ws[ws.len() - 1]));
        lemma_classify_title(f, ws.drop_last());
        assert((f.title + ws.drop_last()).push(ws.last()) =~= f.title + ws);
    }
}

proof fn lemma_classify_labels(f: Fields, ls: Seq<Seq<char>>)
    requires
        forall|i: int| 0 <= i < ls.len() ==> is_word(#[trigger] ls[i]) && ls[i][0] == '@',
    ensures
        classify(f, ls) == (Fields { labels: f.labels + ls, ..f }),
    decreases ls.len(),
{
    if ls.len() == 0 {
        assert(f.labels + ls =~= f.labels);
    } else {
        assert(is_word(ls[ls.len() - 1]) && ls[ls.len() - 1][0] == '@');
        lemma_classify_labels(f, ls.drop_last());
        assert((f.labels + ls.drop_last()).push(ls.last()) =~= f.labels + ls);
    }
}

proof fn lemma_labels_text(ls: Seq<Seq<char>>)
    requires
        forall|i: int| 0 <= i < ls.len() ==> is_word(#[trigger] ls[i]),
    ensures
        words(labels_text(ls)) == ls,
        ls.len() == 0 ==> labels_text(ls) == Seq::<char>::empty(),
        ls.len() > 0 ==> labels_text(ls).len() > 0 && labels_text(ls)[0] == ' ',
    decreases ls.len(),
{
    if ls.len() == 0 {
        assert(words(Seq::<char>::empty()) =~= seq![]);
    } else {
        let init = ls.drop_last();
        assert forall|i: int| 0 <= i < init.len() implies is_word(#[trigger] init[i]) by {
            assert(init[i] == ls[i]);
        }
        lemma_labels_text(init);
        assert(is_word(ls[ls.len() - 1]));
        lemma_words_space_word(ls.last());
        let x = labels_text(init);
        let y = seq![' '] + ls.last();
        assert(labels_text(ls) =~= x + y);
        lemma_words_concat(x, y, seq![]);
        assert(init + seq![ls.last()] =~= ls);
        if init.len() == 0 {
            assert((x + y)[0] == y[0]);
        } else {
            assert((x + y)[0] == x[0]);
        }
    }
}

proof fn lemma_marker_words(t: TaskView)
    requires
        t.id_fits(),
    ensures
        starts_with_marker(encode(t)),
        (encode(t).take(5) == marker(true)) == t.done,
        words(encode(t).skip(5)) == seq![seq!['&'] + int_text(t.id)] + words(
            seq![' '] + t.title + date_part(t.date) + labels_text(t.labels),
        ),
{
    let line = encode(t);
    let idw = seq!['&'] + int_text(t.id);
    let rest = seq![' '] + t.title + date_part(t.date) + labels_text(t.labels);
    assert(line.take(5) =~= marker(t.done));
    if !t.done {
        assert(marker(false)[3] != marker(true)[3]);
    }
    lemma_int_text_round_trip(t.id);
    assert(is_word(idw)) by {
        assert forall|i: int| 0 <= i < idw.len() implies !is_ws(#[trigger] idw[i]) by {
            if i > 0 {
                assert(idw[i] == int_text(t.id)[i - 1]);
            }
        }
    }
    lemma_words_space_word(idw);
    assert(line.skip(5) =~= (seq![' '] + idw) + rest);
    lemma_words_concat(seq![' '] + idw, rest, seq![]);
}

/// A task line, read back, keeps its id and its status, whatever its title.
pub proof fn lemma_decode_encode_id(t: TaskView)
    requires
        t.id_fits(),
    ensures
        decode(encode(t)) is Ok,
        decode(encode(t)) matches Ok(Some(u)) && u.id == t.id && u.done == t.done,
{
    lemma_marker_words(t);
    let idw = seq!['&'] + int_text(t.id);
    let ws = words(encode(t).skip(5));
    assert(ws[0] == idw);
    assert(idw.skip(1) =~= int_text(t.id));
    lemma_int_text_round_trip(t.id);
}

proof fn lemma_date_word(d: CalDate)
    requires
        d.wf(),
    ensures
        is_word(seq!['%'] + date_text(d)),
        (seq!['%'] + date_text(d))[0] == '%',
        (seq!['%'] + date_text(d)).skip(1) == date_text(d),
        date_of(date_text(d)) == Some(d),
{
    let w = seq!['%'] + date_text(d);
    let y = d.year as int;
    let m = d.month as int;
    let dd = d.day as int;
    crate::text::lemma_digit_char((y / 1000) % 10);
    crate::text::lemma_digit_char((y / 100) % 10);
    crate::text::lemma_digit_char((y / 10) % 10);
    crate::text::lemma_digit_char(y % 10);
    crate::text::lemma_digit_char((m / 10) % 10);
    crate::text::lemma_digit_char(m % 10);
    crate::text::lemma_digit_char((dd / 10) % 10);
    crate::text::lemma_digit_char(dd % 10);
    assert forall|i: int| 0 <= i < w.len() implies !is_ws(#[trigger] w[i]) by {
        if i > 0 {
            assert(w[i] == date_text(d)[i - 1]);
        }
    }
    assert(w.skip(1) =~= date_text(d));
    lemma_date_text_round_trip(d);
}

/// Writing a well-formed task as a line and reading that line gives the task back.
pub proof fn lemma_round_trip(t: TaskView)
    requires
        t.wf(),
    ensures
        decode(encode(t)) == Ok::<Option<TaskView>, TaskError>(Some(t)),
{
    lemma_marker_words(t);
    let idw = seq!['&'] + int_text(t.id);
    lemma_int_text_round_trip(t.id);
    assert(idw.skip(1) =~= int_text(t.id));
    let tw = words(t.title);
    let b = seq![' '] + t.title;
    let c = date_part(t.date);
    let d = labels_text(t.labels);
    assert forall|i: int| 0 <= i < tw.len() implies crate::text::is_word(#[trigger] tw[i]) by {
        assert(title_word_ok(tw[i]));
    }
    lemma_words_join(tw);
    assert(words(b) == tw);
    assert forall|i: int| 0 <= i < t.labels.len() implies is_word(#[trigger] t.labels[i]) by {}
    lemma_labels_text(t.labels);
    let dws: Seq<Seq<char>> = match t.date {
        Some(dt) => seq![seq!['%'] + date_text(dt)],
        None => seq![],
    };
    match t.date {
        Some(dt) => {
            lemma_date_word(dt);
            lemma_words_space_word(seq!['%'] + date_text(dt));
            assert(c =~= seq![' '] + (seq!['%'] + date_text(dt)));
        },
        None => {
            assert(words(c) =~= seq![]);
        },
    }
    assert(words(c) == dws);
    lemma_words_concat(b, c, seq![]);
    lemma_words_concat(b + c, d, seq![]);
    assert(b + c + d =~= seq![' '] + t.title + date_part(t.date) + labels_text(t.labels));
    let ws = words(encode(t).skip(5));
    assert(ws == seq![idw] + (tw + dws + t.labels));
    assert(ws[0] == idw);
    assert(ws.skip(1) =~= tw + dws + t.labels);
    let f0 = no_fields(seq![]);
    lemma_classify_concat(f0, tw + dws, t.labels);
    lemma_classify_concat(f0, tw, dws);
    lemma_classify_title(f0, tw);
    let f1 = classify(f0, tw);
    assert(f1.title =~= tw);
    let f2 = classify(f1, dws);
    match t.date {
        Some(dt) => {
            assert(dws.drop_last() =~= Seq::<Seq<char>>::empty());
            assert(classify(f1, dws.drop_last()) == f1);
            assert(dws.last() == dws[0]);
            assert(f2 == absorb(f1, dws[0]));
            assert(f2.date == Some(dt));
            assert(f2.title == tw);
        },
        None => {
            assert(f2 == f1);
        },
    }
    lemma_classify_labels(f2, t.labels);
    let f3 = classify(f2, t.labels);
    assert(f3.labels =~= t.labels);
    assert(make_task(t.done, t.id, f3) == t);
}

impl Task {
    /// The task as one line of a task file.
    pub fn to_line(&self) -> (r: String)
        ensures
            r@ == encode(self@),
    {
        let mut out: Vec<char> = Vec::new();
        out.push('-');
        out.push(' ');
        out.push('[');
        out.push(
            if self.is_done {
                'x'
            } else {
                ' '
            },
        );
        out.push(']');
        out.push(' ');
        out.push('&');
        push_int_text(self.id, &mut out);
        out.push(' ');
        let title = chars_of(self.title.as_str());
        append(&mut out, &title);
        match &self.date {
            Some(d) => {
                out.push(' ');
                out.push('%');
                push_date_text(d, &mut out);
            },
            None => {},
        }
        let ghost base = out@;
        let mut i: usize = 0;
        while i < self.labels.len()
            invariant
                i <= self.labels@.len(),
                out@ == base + labels_text(self.labels.deep_view().take(i as int)),
            decreases self.labels.len() - i,
        {
            let ghost pre = self.labels.deep_view().take(i as int);
            let ghost next = self.labels.deep_view().take(i + 1);
            assert(next.drop_last() =~= pre);
            out.push(' ');
            let l = chars_of(self.labels[i].as_str());
            append(&mut out, &l);
            i += 1;
            assert(out@ =~= base + labels_text(next));
        }
        assert(self.labels.deep_view().take(i as int) =~= self.labels.deep_view());
        assert(out@ =~= encode(self@));
        string_of(&out)
    }
}

fn append(out: &mut Vec<char>, cs: &Vec<char>)
    ensures
        final(out)@ == old(out)@ + cs@,
{
    let mut i: usize = 0;
    let ghost base = out@;
    while i < cs.len()
        invariant
            i <= cs@.len(),
            out@ == base + cs@.take(i as int),
        decreases cs.len() - i,
    {
        out.push(cs[i]);
        i += 1;
        assert(out@ =~= base + cs@.take(i as int));
    }
    assert(cs@.take(i as int) =~= cs@);
}

} // verus!
