use vstd::prelude::*;

use crate::model::{Atom, AtomView};
use crate::text::{chars_of, decimal, push_char, push_decimal, push_str};

verus! {

/// Text of an SQL string literal's body: each single quote doubled.
pub open spec fn escape(s: Seq<char>) -> Seq<char>
    decreases s.len(),
{
    if s.len() == 0 {
        seq![]
    } else {
        (if s[0] == '\'' {
            seq!['\'', '\'']
        } else {
            seq![s[0]]
        }) + escape(s.drop_first())
    }
}

/// `s` as an SQL string literal.
pub open spec fn quoted(s: Seq<char>) -> Seq<char> {
    seq!['\''] + escape(s) + seq!['\'']
}

/// How SQL reads a string literal's body, from just after its opening quote:
/// the text up to the closing quote, a doubled quote standing for one, and the
/// number of characters read including the closing quote; `None` when the
/// literal does not end.
pub open spec fn read_literal(t: Seq<char>) -> Option<(Seq<char>, nat)>
    decreases t.len(),
{
    if t.len() == 0 {
        None
    } else if t[0] == '\'' {
        if t.len() >= 2 && t[1] == '\'' {
            match read_literal(t.skip(2)) {
                Some((v, n)) => Some((seq!['\''] + v, n + 2)),
                None => None,
            }
        } else {
            Some((seq![], 1))
        }
    } else {
        match read_literal(t.drop_first()) {
            Some((v, n)) => Some((seq![t[0]] + v, n + 1)),
            None => None,
        }
    }
}

proof fn lemma_escape_concat(a: Seq<char>, b: Seq<char>)
    ensures
        escape(a + b) == escape(a) + escape(b),
    decreases a.len(),
{
    if a.len() == 0 {
        assert(a + b =~= b);
        assert(escape(a) + escape(b) =~= escape(b));
    } else {
        assert((a + b).drop_first() =~= a.drop_first() + b);
        assert((a + b)[0] == a[0]);
        lemma_escape_concat(a.drop_first(), b);
        if a[0] == '\'' {
            assert(escape(a + b) =~= escape(a) + escape(b));
        } else {
            assert(escape(a + b) =~= escape(a) + escape(b));
        }
    }
}

/// A quoted text reads back as itself: SQL reading the literal that `quoted(s)`
/// opens gets `s`, and stops exactly at the end of `quoted(s)`, whatever
/// follows it, unless what follows starts with a quote.
pub proof fn lemma_quoted_reads_back(s: Seq<char>, rest: Seq<char>)
    requires
        rest.len() == 0 || rest[0] != '\'',
    ensures
        read_literal(quoted(s).drop_first() + rest) == Some((s, (quoted(s).len() - 1) as nat)),
    decreases s.len(),
{
    let t = quoted(s).drop_first() + rest;
    assert(quoted(s).drop_first() =~= escape(s) + seq!['\'']);
    if s.len() == 0 {
        assert(escape(s) =~= seq![]);
        assert(t[0] == '\'');
        assert(t.len() >= 2 ==> t[1] == rest[0]);
        assert(s =~= seq![]);
    } else {
        let s1 = s.drop_first();
        lemma_quoted_reads_back(s1, rest);
        let t1 = quoted(s1).drop_first() + rest;
        assert(quoted(s1).drop_first() =~= escape(s1) + seq!['\'']);
        if s[0] == '\'' {
            assert(t =~= seq!['\'', '\''] + t1);
            assert(t.skip(2) =~= t1);
            assert(seq!['\''] + s1 =~= s);
        } else {
            assert(t =~= seq![s[0]] + t1);
            assert(t.drop_first() =~= t1);
            assert(seq![s[0]] + s1 =~= s);
        }
    }
}

/// Appends `s` as an SQL string literal.
pub fn push_quoted(out: &mut String, s: &str)
    ensures
        final(out)@ == old(out)@ + quoted(s@),
{
    let c = chars_of(s);
    push_char(out, '\'');
    let mut i: usize = 0;
    while i < c.len()
        invariant
            i <= c@.len(),
            c@ == s@,
            out@ == old(out)@ + seq!['\''] + escape(c@.take(i as int)),
        decreases c@.len() - i,
    {
        proof {
            lemma_escape_concat(c@.take(i as int), seq![c@[i as int]]);
            assert(c@.take(i + 1) =~= c@.take(i as int) + seq![c@[i as int]]);
            assert(seq![c@[i as int]].drop_first() =~= seq![]);
            assert(escape(seq![c@[i as int]].drop_first()) =~= seq![]);
        }
        let ghost before = out@;
        if c[i] == '\'' {
            push_char(out, '\'');
            push_char(out, '\'');
            assert(escape(seq![c@[i as int]]) =~= seq!['\'', '\'']);
        } else {
            push_char(out, c[i]);
            assert(escape(seq![c@[i as int]]) =~= seq![c@[i as int]]);
        }
        assert(out@ =~= old(out)@ + seq!['\''] + escape(c@.take(i + 1)));
        i = i + 1;
    }
    push_char(out, '\'');
    assert(c@.take(c@.len() as int) =~= c@);
}

/// One row of `traj` as SQL: `(step, atom_id, 'element', charge, x, y, z, vx, vy, vz)`.
pub open spec fn row_sql(a: AtomView) -> Seq<char> {
    "("@ + decimal(a.step as int) + ", "@ + decimal(a.atom_id as int) + ", "@ + quoted(a.element)
        + ", "@ + a.values[0] + ", "@ + a.values[1] + ", "@ + a.values[2] + ", "@ + a.values[3]
        + ", "@ + a.values[4] + ", "@ + a.values[5] + ", "@ + a.values[6] + ")"@
}

/// The text of a row before its element's literal.
pub open spec fn row_prefix(a: AtomView) -> Seq<char> {
    "("@ + decimal(a.step as int) + ", "@ + decimal(a.atom_id as int) + ", "@
}

/// Quoting safety within a row: SQL reading the literal that opens after
/// `row_prefix(a)` gets the element back, and the literal ends where the row's
/// next field starts.
pub proof fn lemma_row_element_reads_back(a: AtomView)
    ensures
        read_literal(row_sql(a).skip(row_prefix(a).len() as int + 1)) == Some(
            (a.element, (quoted(a.element).len() - 1) as nat),
        ),
        row_sql(a).skip((row_prefix(a).len() + quoted(a.element).len()) as int)[0] == ',',
{
    let pre = row_prefix(a);
    let rest = ", "@ + a.values[0] + ", "@ + a.values[1] + ", "@ + a.values[2] + ", "@
        + a.values[3] + ", "@ + a.values[4] + ", "@ + a.values[5] + ", "@ + a.values[6] + ")"@;
    assert(row_sql(a) =~= pre + quoted(a.element) + rest);
    reveal_strlit(", ");
    assert(rest[0] == ',');
    lemma_quoted_reads_back(a.element, rest);
    assert(row_sql(a).skip(pre.len() as int + 1) =~= quoted(a.element).drop_first() + rest);
    assert(row_sql(a).skip((pre.len() + quoted(a.element).len()) as int) =~= rest);
}

/// The rows, separated by commas.
pub open spec fn rows_sql(rows: Seq<AtomView>) -> Seq<char>
    decreases rows.len(),
{
    if rows.len() == 0 {
        seq![]
    } else if rows.len() == 1 {
        row_sql(rows[0])
    } else {
        rows_sql(rows.drop_last()) + ", "@ + row_sql(rows.last())
    }
}

/// One INSERT statement that adds the rows to `traj`, in order.
pub open spec fn insert_sql(rows: Seq<AtomView>) -> Seq<char> {
    "INSERT INTO traj VALUES "@ + rows_sql(rows)
}

pub open spec fn views(rows: Seq<Atom>) -> Seq<AtomView> {
    rows.map_values(|a: Atom| a@)
}

fn push_row(out: &mut String, a: &Atom)
    ensures
        final(out)@ == old(out)@ + row_sql(a@),
{
    push_str(out, "(");
    push_decimal(out, a.step);
    push_str(out, ", ");
    push_decimal(out, a.atom_id);
    push_str(out, ", ");
    push_quoted(out, a.element.as_str());
    push_str(out, ", ");
    push_str(out, a.charge.as_str());
    push_str(out, ", ");
    push_str(out, a.x.as_str());
    push_str(out, ", ");
    push_str(out, a.y.as_str());
    push_str(out, ", ");
    push_str(out, a.z.as_str());
    push_str(out, ", ");
    push_str(out, a.vx.as_str());
    push_str(out, ", ");
    push_str(out, a.vy.as_str());
    push_str(out, ", ");
    push_str(out, a.vz.as_str());
    push_str(out, ")");
    assert(out@ =~= old(out)@ + row_sql(a@));
}

/// The statement that inserts `rows` in one round trip; none for no rows.
pub fn insert_statement(rows: &[Atom]) -> (r: Option<String>)
    ensures
        rows@.len() == 0 <==> r is None,
        r matches Some(s) ==> s@ == insert_sql(views(rows@)),
{
    if rows.len() == 0 {
        return None;
    }
    let mut out = String::new();
    push_str(&mut out, "INSERT INTO traj VALUES ");
    let mut i: usize = 0;
    while i < rows.len()
        invariant
            i <= rows@.len(),
            out@ == "INSERT INTO traj VALUES "@ + rows_sql(views(rows@).take(i as int)),
        decreases rows@.len() - i,
    {
        let ghost before = out@;
        proof {
            assert(views(rows@).take(i + 1).drop_last() =~= views(rows@).take(i as int));
            assert(views(rows@).take(i + 1).last() == rows@[i as int]@);
        }
        if i > 0 {
            push_str(&mut out, ", ");
        }
        push_row(&mut out, &rows[i]);
        proof {
            if i == 0 {
                assert(views(rows@).take(0) =~= seq![]);
                assert(views(rows@).take(1)[0] == rows@[0]@);
                assert(out@ =~= "INSERT INTO traj VALUES "@ + rows_sql(views(rows@).take(1)));
            } else {
                assert(out@ =~= "INSERT INTO traj VALUES "@ + rows_sql(views(rows@).take(i + 1)));
            }
        }
        i = i + 1;
    }
    assert(views(rows@).take(rows@.len() as int) =~= views(rows@));
    Some(out)
}

} // verus!
