use vstd::prelude::*;

use crate::error::{Fault, SQLMDError};
use crate::finite::{is_finite_number, number_is_finite};
use crate::model::{Atom, AtomView};
use crate::text::{
    check_number, chars_of, field_spans, fields, find_from, find_text, int_of,
    parse_int, push_span, spans, trim,
};

verus! {

/// Where the reader stands in a multi-frame XYZ text.
#[derive(Clone, Copy, PartialEq, Eq, Structural)]
pub enum ParseState {
    /// Next line is a frame's atom count (or a blank line that ends the input).
    Header,
    /// Next line is the comment of a frame of `count` atoms.
    Comment { count: i64 },
    /// Next line is atom `next` of a frame of `count` atoms at `step`.
    Atoms { count: i64, step: i64, next: i64 },
    /// A blank header line was read: the rest is ignored.
    Done,
}

/// What one line of input produces.
pub enum XyzEvent {
    /// A frame's comment was read: its step and declared atom count.
    Frame { step: i64, count: i64 },
    /// An atom line was read.
    Atom(Atom),
}

pub enum EventView {
    Frame { step: i64, count: i64 },
    Atom(AtomView),
}

impl View for XyzEvent {
    type V = EventView;

    open spec fn view(&self) -> EventView {
        match self {
            XyzEvent::Frame { step, count } => EventView::Frame { step: *step, count: *count },
            XyzEvent::Atom(a) => EventView::Atom(a@),
        }
    }
}

pub open spec fn state_wf(st: ParseState) -> bool {
    match st {
        ParseState::Atoms { count, step, next } => 0 <= next < count,
        _ => true,
    }
}

pub open spec fn iter_marker() -> Seq<char> {
    seq!['i', 't', 'e', 'r', ':']
}

/// The atom that line `line` describes, as atom `id` of the frame at `step`:
/// fields element, charge, x, y, z, vx, vy, vz (further fields are ignored),
/// each numeric field a decimal number whose value rounds to a finite double
/// (`finite::is_finite_number`). A line short of any of the eight
/// fields fails, the whole line being the text reported.
pub open spec fn atom_spec(step: i64, id: i64, line: Seq<char>) -> Result<AtomView, Fault> {
    let f = fields(line);
    if f.len() < 8 || exists|k: int| 1 <= k < 8 && !is_finite_number(#[trigger] f[k]) {
        Err(Fault::Parse(line))
    } else {
        Ok(AtomView { step, atom_id: id, element: f[0], values: f.subrange(1, 8) })
    }
}

/// Effect of reading one line in state `st`: the next state and what the line
/// produced, or the failure.
pub open spec fn step_spec(st: ParseState, line: Seq<char>) -> Result<
    (ParseState, Option<EventView>),
    Fault,
> {
    match st {
        ParseState::Done => Ok((ParseState::Done, None)),
        ParseState::Header => {
            let t = trim(line);
            if t.len() == 0 {
                Ok((ParseState::Done, None))
            } else {
                match int_of(t) {
                    Some(n) => Ok((ParseState::Comment { count: n }, None)),
                    None => Err(Fault::Parse(t)),
                }
            }
        },
        ParseState::Comment { count } => match find_from(line, iter_marker(), 0) {
            None => Err(Fault::NotFound(seq!['i', 't', 'e', 'r'])),
            Some(p) => {
                let f = fields(line.skip(p + 5));
                if f.len() == 0 {
                    Err(Fault::Parse(seq![]))
                } else {
                    match int_of(f[0]) {
                        None => Err(Fault::Parse(f[0])),
                        Some(s) => {
                            let next = if count > 0 {
                                ParseState::Atoms { count, step: s, next: 0 }
                            } else {
                                ParseState::Header
                            };
                            Ok((next, Some(EventView::Frame { step: s, count })))
                        },
                    }
                }
            },
        },
        ParseState::Atoms { count, step, next } => match atom_spec(step, next, line) {
            Err(e) => Err(e),
            Ok(a) => {
                let st2 = if next + 1 >= count {
                    ParseState::Header
                } else {
                    ParseState::Atoms { count, step, next: (next + 1) as i64 }
                };
                Ok((st2, Some(EventView::Atom(a))))
            },
        },
    }
}

/// Whether the input may end in state `st`.
pub open spec fn finish_spec(st: ParseState) -> Result<(), Fault> {
    match st {
        ParseState::Comment { count } => Err(Fault::NotFound(seq!['c', 'o', 'm', 'm', 'e', 'n', 't'])),
        ParseState::Atoms { count, step, next } => Err(
            Fault::Truncated { step, expected: count, found: next },
        ),
        _ => Ok(()),
    }
}

pub open spec fn opt_seq(e: Option<EventView>) -> Seq<EventView> {
    match e {
        Some(v) => seq![v],
        None => seq![],
    }
}

/// Reading `lines` from the start: the state reached and the events produced,
/// or the first failure.
pub open spec fn run_spec(lines: Seq<Seq<char>>) -> Result<(ParseState, Seq<EventView>), Fault>
    decreases lines.len(),
{
    if lines.len() == 0 {
        Ok((ParseState::Header, seq![]))
    } else {
        match run_spec(lines.drop_last()) {
            Err(e) => Err(e),
            Ok((st, evs)) => match step_spec(st, lines.last()) {
                Err(e) => Err(e),
                Ok((st2, ev)) => Ok((st2, evs + opt_seq(ev))),
            },
        }
    }
}

/// The events of a whole input, or the first failure.
pub open spec fn parse_spec(lines: Seq<Seq<char>>) -> Result<Seq<EventView>, Fault> {
    match run_spec(lines) {
        Err(e) => Err(e),
        Ok((st, evs)) => match finish_spec(st) {
            Err(e) => Err(e),
            Ok(_) => Ok(evs),
        },
    }
}

fn span_string(s: &Vec<char>, lo: usize, hi: usize) -> (r: String)
    requires
        lo <= hi <= s@.len(),
    ensures
        r@ == s@.subrange(lo as int, hi as int),
{
    let mut r = String::new();
    push_span(&mut r, s, lo, hi);
    r
}

fn parse_atom(step: i64, id: i64, line: &str) -> (r: Result<Atom, SQLMDError>)
    ensures
        match atom_spec(step, id, line@) {
            Ok(a) => r matches Ok(x) && x@ == a,
            Err(f) => r matches Err(e) && e@ == f,
        },
{
    let s = chars_of(line);
    let sp = field_spans(&s);
    let ghost f = fields(s@);
    assert(f.len() == sp@.len());
    if sp.len() < 8 {
        let m = line.to_owned();
        assert(m@ == line@);
        assert(f.len() < 8);
        assert(atom_spec(step, id, line@) == Err::<AtomView, Fault>(Fault::Parse(line@)));
        return Err(SQLMDError::ParseError(m));
    }
    let mut k: usize = 1;
    while k < 8
        invariant
            1 <= k <= 8,
            sp@.len() >= 8,
            sp@.len() == spans(s@).len(),
            s@ == line@,
            f == fields(s@),
            f.len() == sp@.len(),
            forall|j: int|
                0 <= j < sp@.len() ==> (#[trigger] sp@[j]).0 as int == spans(s@)[j].0
                    && sp@[j].1 as int == spans(s@)[j].1,
            forall|j: int| 0 <= j < sp@.len() ==> (#[trigger] sp@[j]).0 < sp@[j].1 <= s@.len(),
            forall|j: int| 1 <= j < k ==> is_finite_number(#[trigger] f[j]),
        decreases 8 - k,
    {
        let (a, b) = sp[k];
        assert(f[k as int] == s@.subrange(a as int, b as int));
        if !check_number(&s, a, b) || !number_is_finite(&s, a, b) {
            let m = line.to_owned();
            assert(!is_finite_number(f[k as int]));
            assert(atom_spec(step, id, line@) == Err::<AtomView, Fault>(Fault::Parse(line@)));
            return Err(SQLMDError::ParseError(m));
        }
        k = k + 1;
    }
    let mut v: Vec<String> = Vec::new();
    let mut j: usize = 0;
    while j < 8
        invariant
            j <= 8,
            sp@.len() >= 8,
            sp@.len() == spans(s@).len(),
            s@ == line@,
            f == fields(s@),
            forall|i: int|
                0 <= i < sp@.len() ==> (#[trigger] sp@[i]).0 as int == spans(s@)[i].0
                    && sp@[i].1 as int == spans(s@)[i].1,
            forall|i: int| 0 <= i < sp@.len() ==> (#[trigger] sp@[i]).0 < sp@[i].1 <= s@.len(),
            v@.len() == j,
            forall|i: int| 0 <= i < j ==> (#[trigger] v@[i])@ == f[i],
        decreases 8 - j,
    {
        let (a, b) = sp[j];
        assert(f[j as int] == s@.subrange(a as int, b as int));
        v.push(span_string(&s, a, b));
        j = j + 1;
    }
    let vz = v.pop().unwrap();
    let vy = v.pop().unwrap();
    let vx = v.pop().unwrap();
    let z = v.pop().unwrap();
    let y = v.pop().unwrap();
    let x = v.pop().unwrap();
    let charge = v.pop().unwrap();
    let element = v.pop().unwrap();
    let atom = Atom { step, atom_id: id, element, charge, x, y, z, vx, vy, vz };
    assert(atom@.values == f.subrange(1, 8));
    Ok(atom)
}

/// Streaming reader of a multi-frame XYZ text, fed one line at a time.
pub struct XyzParser {
    state: ParseState,
}

impl XyzParser {
    pub closed spec fn state(&self) -> ParseState {
        self.state
    }

    pub fn new() -> (r: XyzParser)
        ensures
            r.state() == ParseState::Header,
    {
        XyzParser { state: ParseState::Header }
    }

    /// Reads one line (without its terminator).
    pub fn feed_line(&mut self, line: &str) -> (r: Result<Option<XyzEvent>, SQLMDError>)
        requires
            state_wf(old(self).state()),
        ensures
            state_wf(final(self).state()),
            match step_spec(old(self).state(), line@) {
                Ok((st, ev)) => r matches Ok(o) && final(self).state() == st && match o {
                    Some(e) => ev == Some(e@),
                    None => ev is None,
                },
                Err(f) => r matches Err(e) && e@ == f && final(self).state() == old(self).state(),
            },
    {
        match self.state {
            ParseState::Done => Ok(None),
            ParseState::Header => {
                let s = chars_of(line);
                let sp = field_spans(&s);
                if sp.len() == 0 {
                    self.state = ParseState::Done;
                    return Ok(None);
                }
                let lo = sp[0].0;
                let hi = sp[sp.len() - 1].1;
                assert(trim(s@) == s@.subrange(lo as int, hi as int));
                match parse_int(&s, lo, hi) {
                    Some(n) => {
                        self.state = ParseState::Comment { count: n };
                        Ok(None)
                    },
                    None => Err(SQLMDError::ParseError(span_string(&s, lo, hi))),
                }
            },
            ParseState::Comment { count } => {
                let s = chars_of(line);
                let marker = vec!['i', 't', 'e', 'r', ':'];
                assert(marker@ == iter_marker());
                match find_text(&s, &marker) {
                    None => {
                        proof {
                            reveal_strlit("iter");
                            assert("iter"@ =~= seq!['i', 't', 'e', 'r']);
                        }
                        Err(SQLMDError::NotFoundError("iter".to_owned()))
                    },
                    Some(p) => {
                        proof {
                            lemma_find_from_bounds(s@, iter_marker(), 0);
                            assert(iter_marker().len() == 5);
                        }
                        let rest = suffix(&s, p + 5);
                        let sp = field_spans(&rest);
                        if sp.len() == 0 {
                            proof {
                                reveal_strlit("");
                                assert(""@ =~= Seq::<char>::empty());
                            }
                            return Err(SQLMDError::ParseError("".to_owned()));
                        }
                        let (a, b) = sp[0];
                        assert(fields(rest@)[0] == rest@.subrange(a as int, b as int));
                        match parse_int(&rest, a, b) {
                            None => Err(SQLMDError::ParseError(span_string(&rest, a, b))),
                            Some(st) => {
                                if count > 0 {
                                    self.state = ParseState::Atoms { count, step: st, next: 0 };
                                } else {
                                    self.state = ParseState::Header;
                                }
                                Ok(Some(XyzEvent::Frame { step: st, count }))
                            },
                        }
                    },
                }
            },
            ParseState::Atoms { count, step, next } => {
                let a = match parse_atom(step, next, line) {
                    Ok(a) => a,
                    Err(e) => return Err(e),
                };
                if next + 1 >= count {
                    self.state = ParseState::Header;
                } else {
                    self.state = ParseState::Atoms { count, step, next: next + 1 };
                }
                Ok(Some(XyzEvent::Atom(a)))
            },
        }
    }

    /// Ends the input: fails where it stops inside a frame.
    pub fn finish(&self) -> (r: Result<(), SQLMDError>)
        ensures
            match finish_spec(self.state()) {
                Ok(_) => r is Ok,
                Err(f) => r matches Err(e) && e@ == f,
            },
    {
        match self.state {
            ParseState::Comment { count } => {
                proof {
                    reveal_strlit("comment");
                    assert("comment"@ =~= seq!['c', 'o', 'm', 'm', 'e', 'n', 't']);
                }
                Err(SQLMDError::NotFoundError("comment".to_owned()))
            },
            ParseState::Atoms { count, step, next } => Err(
                SQLMDError::TruncatedFrame { step, expected: count, found: next },
            ),
            _ => Ok(()),
        }
    }
}

proof fn lemma_find_from_bounds(s: Seq<char>, p: Seq<char>, i: int)
    ensures
        find_from(s, p, i) matches Some(k) ==> i <= k && k + p.len() <= s.len(),
    decreases s.len() - i,
{
    if i < 0 || i + p.len() > s.len() {
    } else if s.subrange(i, i + p.len()) =~= p {
    } else {
        lemma_find_from_bounds(s, p, i + 1);
    }
}

fn suffix(s: &Vec<char>, k: usize) -> (r: Vec<char>)
    requires
        k <= s@.len(),
    ensures
        r@ == s@.skip(k as int),
{
    let mut r: Vec<char> = Vec::new();
    let mut i = k;
    while i < s.len()
        invariant
            k <= i <= s@.len(),
            r@ == s@.subrange(k as int, i as int),
        decreases s@.len() - i,
    {
        r.push(s[i]);
        i = i + 1;
    }
    r
}

pub open spec fn line_views(lines: Seq<String>) -> Seq<Seq<char>> {
    lines.map_values(|l: String| l@)
}

pub open spec fn event_views(evs: Seq<XyzEvent>) -> Seq<EventView> {
    evs.map_values(|e: XyzEvent| e@)
}

proof fn lemma_run_err_extends(lines: Seq<Seq<char>>, i: int)
    requires
        0 <= i <= lines.len(),
        run_spec(lines.take(i)) is Err,
    ensures
        run_spec(lines) == run_spec(lines.take(i)),
    decreases lines.len() - i,
{
    if i == lines.len() {
        assert(lines.take(i) == lines);
    } else {
        let t = lines.take(i + 1);
        assert(t.drop_last() == lines.take(i));
        assert(lines.take(i + 1).take(i) == lines.take(i));
        lemma_run_err_extends(lines, i + 1);
    }
}

/// Reads a whole input given as its lines (without terminators): the events
/// in order, or the first failure.
pub fn parse_xyz(lines: &Vec<String>) -> (r: Result<Vec<XyzEvent>, SQLMDError>)
    ensures
        match parse_spec(line_views(lines@)) {
            Ok(evs) => r matches Ok(v) && event_views(v@) == evs,
            Err(f) => r matches Err(e) && e@ == f,
        },
{
    let ghost all = line_views(lines@);
    let mut p = XyzParser::new();
    let mut out: Vec<XyzEvent> = Vec::new();
    let mut i: usize = 0;
    assert(all.take(0) =~= Seq::<Seq<char>>::empty());
    assert(event_views(out@) =~= Seq::<EventView>::empty());
    while i < lines.len()
        invariant
            i <= lines@.len(),
            all == line_views(lines@),
            state_wf(p.state()),
            run_spec(all.take(i as int)) == Ok::<(ParseState, Seq<EventView>), Fault>(
                (p.state(), event_views(out@)),
            ),
        decreases lines@.len() - i,
    {
        let ghost before = out@;
        proof {
            assert(all.take(i + 1).drop_last() == all.take(i as int));
            assert(all.take(i + 1).last() == lines@[i as int]@);
        }
        match p.feed_line(lines[i].as_str()) {
            Err(e) => {
                proof {
                    lemma_run_err_extends(all, i + 1);
                    assert(all.take(all.len() as int) == all);
                }
                return Err(e);
            },
            Ok(o) => {
                match o {
                    Some(ev) => {
                        out.push(ev);
                        assert(event_views(out@) =~= event_views(before) + seq![out@.last()@]);
                    },
                    None => {
                        assert(event_views(out@) =~= event_views(before) + Seq::<EventView>::empty());
                    },
                }
            },
        }
        i = i + 1;
    }
    assert(all.take(all.len() as int) == all);
    match p.finish() {
        Ok(_) => Ok(out),
        Err(e) => Err(e),
    }
}

} // verus!
