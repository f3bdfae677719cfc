use vstd::prelude::*;

use crate::model::AtomView;
use crate::xyz::{parse_spec, run_spec, finish_spec, step_spec, state_wf, opt_seq, EventView, ParseState};

verus! {

/// The atoms among `evs`, in order: the rows that an ingest stores.
pub open spec fn atoms_of(evs: Seq<EventView>) -> Seq<AtomView>
    decreases evs.len(),
{
    if evs.len() == 0 {
        seq![]
    } else {
        match evs.last() {
            EventView::Atom(a) => atoms_of(evs.drop_last()).push(a),
            EventView::Frame { .. } => atoms_of(evs.drop_last()),
        }
    }
}

/// The frame headers among `evs`, in order, as `(step, declared count)`.
pub open spec fn heads_of(evs: Seq<EventView>) -> Seq<(i64, i64)>
    decreases evs.len(),
{
    if evs.len() == 0 {
        seq![]
    } else {
        match evs.last() {
            EventView::Frame { step, count } => heads_of(evs.drop_last()).push((step, count)),
            EventView::Atom(_) => heads_of(evs.drop_last()),
        }
    }
}

pub open spec fn key_of(a: AtomView) -> (i64, i64) {
    (a.step, a.atom_id)
}

/// The `(step, atom_id)` pairs of the rows, in order.
pub open spec fn keys_of(evs: Seq<EventView>) -> Seq<(i64, i64)> {
    atoms_of(evs).map_values(|a: AtomView| key_of(a))
}

/// `(step, 0), (step, 1), ..., (step, n - 1)`.
pub open spec fn frame_keys(step: i64, n: int) -> Seq<(i64, i64)> {
    Seq::new(if n > 0 { n as nat } else { 0 }, |j: int| (step, j as i64))
}

/// The keys that frames with these headers describe, frame after frame.
pub open spec fn expand(hs: Seq<(i64, i64)>) -> Seq<(i64, i64)>
    decreases hs.len(),
{
    if hs.len() == 0 {
        seq![]
    } else {
        expand(hs.drop_last()) + frame_keys(hs.last().0, hs.last().1 as int)
    }
}

/// Sum of the declared counts.
pub open spec fn total_count(hs: Seq<(i64, i64)>) -> int
    decreases hs.len(),
{
    if hs.len() == 0 {
        0
    } else {
        total_count(hs.drop_last()) + hs.last().1
    }
}

/// The atom ids of the keys at `step`, in order.
pub open spec fn ids_at(ks: Seq<(i64, i64)>, step: i64) -> Seq<i64>
    decreases ks.len(),
{
    if ks.len() == 0 {
        seq![]
    } else if ks.last().0 == step {
        ids_at(ks.drop_last(), step).push(ks.last().1)
    } else {
        ids_at(ks.drop_last(), step)
    }
}

/// Keys of the atoms that the frame in progress still owes.
pub open spec fn pending(st: ParseState) -> Seq<(i64, i64)> {
    match st {
        ParseState::Atoms { count, step, next } => Seq::new(
            (count - next) as nat,
            |j: int| (step, (next + j) as i64),
        ),
        _ => seq![],
    }
}

proof fn lemma_run_keys(lines: Seq<Seq<char>>)
    requires
        run_spec(lines) is Ok,
    ensures
        state_wf(run_spec(lines)->Ok_0.0),
        keys_of(run_spec(lines)->Ok_0.1) + pending(run_spec(lines)->Ok_0.0) == expand(
            heads_of(run_spec(lines)->Ok_0.1),
        ),
    decreases lines.len(),
{
    if lines.len() == 0 {
        assert(keys_of(seq![]) =~= seq![]);
        assert(keys_of(seq![]) + pending(ParseState::Header) =~= seq![]);
    } else {
        let prev = lines.drop_last();
        lemma_run_keys(prev);
        let (st, evs) = run_spec(prev)->Ok_0;
        let (st2, ev) = step_spec(st, lines.last())->Ok_0;
        let evs2 = evs + opt_seq(ev);
        assert(run_spec(lines)->Ok_0 == (st2, evs2));
        match ev {
            None => {
                assert(evs2 =~= evs);
                match st {
                    ParseState::Atoms { .. } => {},
                    _ => {
                        assert(pending(st2) =~= seq![]);
                    },
                }
            },
            Some(e) => {
                assert(evs2.drop_last() =~= evs);
                match e {
                    EventView::Frame { step, count } => {
                        assert(heads_of(evs2) == heads_of(evs).push((step, count)));
                        assert(atoms_of(evs2) == atoms_of(evs));
                        assert(keys_of(evs2) == keys_of(evs));
                        assert(pending(st) =~= seq![]);
                        assert(pending(st2) =~= frame_keys(step, count as int));
                        assert(heads_of(evs2).drop_last() =~= heads_of(evs));
                        assert(keys_of(evs2) + pending(st2) =~= keys_of(evs) + pending(st)
                            + frame_keys(step, count as int));
                    },
                    EventView::Atom(a) => {
                        assert(heads_of(evs2) == heads_of(evs));
                        assert(atoms_of(evs2) == atoms_of(evs).push(a));
                        assert(keys_of(evs2) =~= keys_of(evs).push(key_of(a)));
                        assert(keys_of(evs2) + pending(st2) =~= keys_of(evs) + pending(st));
                    },
                }
            },
        }
    }
}

/// Rows keep the input order: the `(step, atom_id)` pairs of the rows read from
/// a valid input are, frame after frame, `(s, 0), ..., (s, N - 1)` for each
/// frame's step `s` and declared count `N`.
pub proof fn lemma_rows_in_input_order(lines: Seq<Seq<char>>)
    requires
        parse_spec(lines) is Ok,
    ensures
        keys_of(parse_spec(lines)->Ok_0) == expand(heads_of(parse_spec(lines)->Ok_0)),
{
    lemma_run_keys(lines);
    let (st, evs) = run_spec(lines)->Ok_0;
    assert(finish_spec(st) is Ok);
    assert(pending(st) =~= seq![]);
    assert(keys_of(evs) + pending(st) =~= keys_of(evs));
}

proof fn lemma_expand_len(hs: Seq<(i64, i64)>)
    requires
        forall|k: int| 0 <= k < hs.len() ==> (#[trigger] hs[k]).1 >= 0,
    ensures
        expand(hs).len() == total_count(hs),
    decreases hs.len(),
{
    if hs.len() > 0 {
        lemma_expand_len(hs.drop_last());
    }
}

/// Row count: a valid input whose frames declare no negative count yields as
/// many rows as the sum of the declared counts.
pub proof fn lemma_row_count(lines: Seq<Seq<char>>)
    requires
        parse_spec(lines) is Ok,
        forall|k: int|
            0 <= k < heads_of(parse_spec(lines)->Ok_0).len() ==> (#[trigger] heads_of(
                parse_spec(lines)->Ok_0,
            )[k]).1 >= 0,
    ensures
        atoms_of(parse_spec(lines)->Ok_0).len() == total_count(heads_of(parse_spec(lines)->Ok_0)),
{
    let evs = parse_spec(lines)->Ok_0;
    lemma_rows_in_input_order(lines);
    lemma_expand_len(heads_of(evs));
    assert(keys_of(evs).len() == atoms_of(evs).len());
}

proof fn lemma_ids_at_concat(a: Seq<(i64, i64)>, b: Seq<(i64, i64)>, step: i64)
    ensures
        ids_at(a + b, step) == ids_at(a, step) + ids_at(b, step),
    decreases b.len(),
{
    if b.len() == 0 {
        assert(a + b =~= a);
        assert(ids_at(a, step) + ids_at(b, step) =~= ids_at(a, step));
    } else {
        assert((a + b).drop_last() =~= a + b.drop_last());
        lemma_ids_at_concat(a, b.drop_last(), step);
        if b.last().0 == step {
            assert(ids_at(a + b, step) =~= ids_at(a, step) + ids_at(b, step));
        } else {
            assert(ids_at(a + b, step) =~= ids_at(a, step) + ids_at(b, step));
        }
    }
}

proof fn lemma_ids_at_frame(s: i64, n: int, step: i64)
    ensures
        ids_at(frame_keys(s, n), step) == (if s == step {
            Seq::new(if n > 0 { n as nat } else { 0 }, |j: int| j as i64)
        } else {
            seq![]
        }),
    decreases if n > 0 { n } else { 0 },
{
    if n > 0 {
        assert(frame_keys(s, n).drop_last() =~= frame_keys(s, n - 1));
        lemma_ids_at_frame(s, n - 1, step);
        if s == step {
            assert(ids_at(frame_keys(s, n), step) =~= Seq::new(n as nat, |j: int| j as i64));
        }
    } else {
        assert(frame_keys(s, n) =~= seq![]);
    }
}

proof fn lemma_ids_at_expand(hs: Seq<(i64, i64)>, k: int, step: i64)
    requires
        0 <= k,
        k < hs.len() ==> hs[k].0 == step,
        forall|j: int| 0 <= j < hs.len() && j != k ==> (#[trigger] hs[j]).0 != step,
    ensures
        ids_at(expand(hs), step) == (if k < hs.len() {
            Seq::new(if hs[k].1 > 0 { hs[k].1 as nat } else { 0 }, |j: int| j as i64)
        } else {
            seq![]
        }),
    decreases hs.len(),
{
    if hs.len() == 0 {
    } else {
        let last = hs.last();
        let prev = hs.drop_last();
        lemma_ids_at_concat(expand(prev), frame_keys(last.0, last.1 as int), step);
        lemma_ids_at_frame(last.0, last.1 as int, step);
        if k == hs.len() - 1 {
            lemma_ids_at_expand(prev, hs.len() as int, step);
            assert(ids_at(expand(hs), step) =~= Seq::new(
                if hs[k].1 > 0 { hs[k].1 as nat } else { 0 },
                |j: int| j as i64,
            ));
        } else {
            assert(last.0 != step);
            lemma_ids_at_expand(prev, k, step);
            if k < hs.len() {
                assert(prev[k] == hs[k]);
            }
            assert(ids_at(expand(hs), step) =~= ids_at(expand(prev), step));
        }
    }
}

/// Atom ids: where exactly one frame of a valid input has step `s`, the atom
/// ids of the rows at `s` are `0, 1, ..., N - 1` for that frame's declared count
/// `N` (none where `N` is not positive), in that order and so as a multiset.
pub proof fn lemma_atom_ids_of_step(lines: Seq<Seq<char>>, k: int)
    requires
        parse_spec(lines) is Ok,
        0 <= k < heads_of(parse_spec(lines)->Ok_0).len(),
        forall|j: int|
            0 <= j < heads_of(parse_spec(lines)->Ok_0).len() && j != k ==> (#[trigger] heads_of(
                parse_spec(lines)->Ok_0,
            )[j]).0 != heads_of(parse_spec(lines)->Ok_0)[k].0,
    ensures
        ({
            let hs = heads_of(parse_spec(lines)->Ok_0);
            let ids = ids_at(keys_of(parse_spec(lines)->Ok_0), hs[k].0);
            let want = Seq::new(if hs[k].1 > 0 { hs[k].1 as nat } else { 0 }, |j: int| j as i64);
            ids == want && ids.to_multiset() == want.to_multiset()
        }),
{
    let evs = parse_spec(lines)->Ok_0;
    let hs = heads_of(evs);
    lemma_rows_in_input_order(lines);
    lemma_ids_at_expand(hs, k, hs[k].0);
}

} // verus!
