//! The crate's cross-cutting guarantees: parsing inverts writing at the row
//! level, and the parser's stack pops exactly as often as it pushes.

use vstd::prelude::*;

use crate::errors::SMLErrorType;
use crate::errors::SMLErrorV;
use crate::parser::closes;
use crate::parser::end_keyword_of_field;
use crate::parser::first_nonblank_from;
use crate::parser::last_nonblank_at;
use crate::parser::leaf;
use crate::parser::lemma_first_nonblank_from;
use crate::parser::lemma_last_nonblank_at;
use crate::parser::parse_rows_spec;
use crate::parser::row_is_blank;
use crate::parser::run;
use crate::parser::with_attr;
use crate::parser::with_child;
use crate::parser::EndKeyword;
use crate::parser::RowV;
use crate::tree::AttrV;
use crate::tree::ElemV;
use crate::writer::attr_rows_of;
use crate::wsv::lower_of;

verus! {

broadcast use {vstd::std_specs::vec::group_vec_axioms, vstd::seq::group_seq_axioms};

/// The rows that the lines written for `e` stand for, in order: the name row,
/// one row per attribute (name first, then the values), the children's rows,
/// and the closing row, whose single field is the end keyword (the null field
/// where none is configured).
pub open spec fn elem_rows(e: ElemV, kw: Option<Seq<char>>) -> Seq<RowV>
    decreases e,
{
    seq![seq![Some(e.name)]] + attr_rows_of(e.attributes) + children_rows(e.children, kw)
        + seq![seq![kw]]
}

/// The rows written for `e` after its name row.
pub open spec fn interior_rows(e: ElemV, kw: Option<Seq<char>>) -> Seq<RowV>
    decreases e,
{
    attr_rows_of(e.attributes) + children_rows(e.children, kw) + seq![seq![kw]]
}

/// The rows written for a list of sibling elements.
pub open spec fn children_rows(cs: Seq<ElemV>, kw: Option<Seq<char>>) -> Seq<RowV>
    decreases cs,
{
    if cs.len() == 0 {
        Seq::empty()
    } else {
        elem_rows(cs[0], kw) + children_rows(cs.drop_first(), kw)
    }
}

/// Every attribute in the tree carries at least one value. An attribute row
/// with no values would hold a single field, which no parser could tell from
/// an element or closing row.
pub open spec fn attrs_have_values(e: ElemV) -> bool
    decreases e,
{
    (forall|i: int| 0 <= i < e.attributes.len() ==> #[trigger] e.attributes[i].values.len() >= 1)
        && (forall|i: int|
        0 <= i < e.children.len() ==> attrs_have_values(#[trigger] e.children[i]))
}

/// The mode a document written with end keyword `kw` is parsed under: the
/// null field closes, or the lowercased keyword does.
pub open spec fn kw_mode(kw: Option<Seq<char>>) -> EndKeyword {
    match kw {
        None => EndKeyword::Null,
        Some(k) => EndKeyword::Word(lower_of(k)),
    }
}

/// No element name anywhere in the tree would be taken for a closing row.
/// Attribute names never matter here: attribute rows carry at least two
/// fields, and only single-field rows can close.
pub open spec fn no_closing_names(e: ElemV, m: EndKeyword) -> bool
    decreases e,
{
    !closes(Some(e.name), m) && (forall|i: int|
        0 <= i < e.children.len() ==> no_closing_names(#[trigger] e.children[i], m))
}

/// `p` with `attrs` appended to its attributes.
pub open spec fn add_attrs(p: ElemV, attrs: Seq<AttrV>) -> ElemV {
    ElemV { name: p.name, attributes: p.attributes + attrs, children: p.children }
}

/// `p` with `cs` appended to its children.
pub open spec fn add_children(p: ElemV, cs: Seq<ElemV>) -> ElemV {
    ElemV { name: p.name, attributes: p.attributes, children: p.children + cs }
}

proof fn lemma_attrs_run(
    attrs: Seq<AttrV>,
    tail: Seq<RowV>,
    base: int,
    m: EndKeyword,
    stack: Seq<ElemV>,
    done: Option<ElemV>,
)
    requires
        stack.len() >= 1,
        forall|i: int| 0 <= i < attrs.len() ==> #[trigger] attrs[i].values.len() >= 1,
    ensures
        run(attr_rows_of(attrs) + tail, base, m, stack, done) == run(
            tail,
            base + attrs.len(),
            m,
            stack.drop_last().push(add_attrs(stack.last(), attrs)),
            done,
        ),
    decreases attrs.len(),
{
    if attrs.len() == 0 {
        assert(attr_rows_of(attrs) + tail =~= tail);
        assert(add_attrs(stack.last(), attrs) =~~= stack.last());
        assert(stack.drop_last().push(stack.last()) =~= stack);
    } else {
        let rows = attr_rows_of(attrs) + tail;
        let r0 = rows[0];
        assert(r0 =~= seq![Some(attrs[0].name)] + attrs[0].values);
        assert(r0.len() >= 2);
        assert(r0[0] == Some(attrs[0].name));
        assert(r0.drop_first() =~= attrs[0].values);
        assert(AttrV { name: attrs[0].name, values: r0.drop_first() } =~~= attrs[0]);
        let stack2 = stack.drop_last().push(with_attr(stack.last(), attrs[0]));
        assert(run(rows, base, m, stack, done) == run(
            rows.drop_first(),
            base + 1,
            m,
            stack2,
            done,
        ));
        assert(rows.drop_first() =~= attr_rows_of(attrs.drop_first()) + tail);
        lemma_attrs_run(attrs.drop_first(), tail, base + 1, m, stack2, done);
        assert(stack2.drop_last() =~= stack.drop_last());
        assert(add_attrs(stack2.last(), attrs.drop_first()) =~~= add_attrs(stack.last(), attrs));
    }
}

proof fn lemma_elem_run(
    e: ElemV,
    kw: Option<Seq<char>>,
    rest: Seq<RowV>,
    base: int,
    stack: Seq<ElemV>,
    done: Option<ElemV>,
)
    requires
        attrs_have_values(e),
        no_closing_names(e, kw_mode(kw)),
    ensures
        ({
            let m = kw_mode(kw);
            let after = base + interior_rows(e, kw).len();
            run(interior_rows(e, kw) + rest, base, m, stack.push(leaf(e.name)), done) == (
            if stack.len() == 0 {
                if done is Some {
                    Err(
                        SMLErrorV {
                            err_type: SMLErrorType::OnlyOneRootElementAllowed,
                            line: after - 1,
                        },
                    )
                } else {
                    run(rest, after, m, Seq::empty(), Some(e))
                }
            } else {
                run(rest, after, m, stack.drop_last().push(with_child(stack.last(), e)), done)
            })
        }),
    decreases e,
{
    let m = kw_mode(kw);
    let s1 = stack.push(leaf(e.name));
    let ctail = children_rows(e.children, kw) + (seq![seq![kw]] + rest);
    assert(interior_rows(e, kw) + rest =~= attr_rows_of(e.attributes) + ctail);
    lemma_attrs_run(e.attributes, ctail, base, m, s1, done);
    assert(s1.drop_last() =~= stack);
    let p1 = add_attrs(leaf(e.name), e.attributes);
    assert(p1.attributes =~= e.attributes);
    assert(s1.drop_last().push(add_attrs(s1.last(), e.attributes)) =~= stack.push(p1));

    let base2 = base + e.attributes.len();
    lemma_children_run(e.children, kw, seq![seq![kw]] + rest, base2, stack.push(p1), done);
    let p2 = add_children(p1, e.children);
    assert(p2 =~~= e);
    assert((stack.push(p1)).drop_last() =~= stack);
    assert((stack.push(p1)).drop_last().push(add_children(p1, e.children)) =~= stack.push(e));

    let base3 = base2 + children_rows(e.children, kw).len();
    let closer = seq![seq![kw]] + rest;
    assert(closer[0] =~= seq![kw]);
    assert(closer[0].len() == 1);
    assert(closes(kw, m));
    assert(closer.drop_first() =~= rest);
    let s2 = stack.push(e);
    assert(s2.last() == e);
    assert(base3 + 1 == base + interior_rows(e, kw).len());
    if stack.len() == 0 {
        assert(s2.len() == 1);
        if done is None {
            assert(run(closer, base3, m, s2, done) == run(rest, base3 + 1, m, Seq::empty(),
                Some(e)));
        }
    } else {
        assert(s2.len() >= 2);
        assert(s2.drop_last().drop_last() =~= stack.drop_last());
        assert(s2[s2.len() - 2] == stack.last());
        assert(run(closer, base3, m, s2, done) == run(
            rest,
            base3 + 1,
            m,
            stack.drop_last().push(with_child(stack.last(), e)),
            done,
        ));
    }
}

proof fn lemma_children_run(
    cs: Seq<ElemV>,
    kw: Option<Seq<char>>,
    tail: Seq<RowV>,
    base: int,
    stack: Seq<ElemV>,
    done: Option<ElemV>,
)
    requires
        stack.len() >= 1,
        forall|i: int|
            0 <= i < cs.len() ==> attrs_have_values(#[trigger] cs[i]) && no_closing_names(
                cs[i],
                kw_mode(kw),
            ),
    ensures
        run(children_rows(cs, kw) + tail, base, kw_mode(kw), stack, done) == run(
            tail,
            base + children_rows(cs, kw).len(),
            kw_mode(kw),
            stack.drop_last().push(add_children(stack.last(), cs)),
            done,
        ),
    decreases cs,
{
    let m = kw_mode(kw);
    if cs.len() == 0 {
        assert(children_rows(cs, kw) + tail =~= tail);
        assert(add_children(stack.last(), cs) =~~= stack.last());
        assert(stack.drop_last().push(stack.last()) =~= stack);
    } else {
        let c0 = cs[0];
        let rows = children_rows(cs, kw) + tail;
        let inner = interior_rows(c0, kw) + (children_rows(cs.drop_first(), kw) + tail);
        assert(elem_rows(c0, kw) =~= seq![seq![Some(c0.name)]] + interior_rows(c0, kw));
        assert(rows =~= seq![seq![Some(c0.name)]] + inner);
        assert(rows[0] =~= seq![Some(c0.name)]);
        assert(rows[0].len() == 1);
        assert(!closes(Some(c0.name), m));
        assert(run(rows, base, m, stack, done) == run(
            rows.drop_first(),
            base + 1,
            m,
            stack.push(leaf(c0.name)),
            done,
        ));
        assert(rows.drop_first() =~= inner);
        lemma_elem_run(c0, kw, children_rows(cs.drop_first(), kw) + tail, base + 1, stack, done);
        let after0 = base + 1 + interior_rows(c0, kw).len();
        let stack3 = stack.drop_last().push(with_child(stack.last(), c0));
        lemma_children_run(cs.drop_first(), kw, tail, after0, stack3, done);
        assert(stack3.drop_last() =~= stack.drop_last());
        assert(stack3.last() == with_child(stack.last(), c0));
        assert(stack.last().children.push(c0) + cs.drop_first() =~= stack.last().children + cs);
        assert(add_children(stack3.last(), cs.drop_first()) =~~= add_children(stack.last(), cs));
        assert(after0 + children_rows(cs.drop_first(), kw).len() == base + children_rows(
            cs,
            kw,
        ).len());
    }
}

/// Parsing inverts writing, row for row. `elem_rows(t, kw)` is the row
/// sequence that the document written for `t` tokenizes back to, one row per
/// line. Provided every attribute carries at least one value, and no element
/// name in the tree matches the end keyword case-insensitively (with no end
/// keyword nothing need be checked: names are never the null field), parsing
/// those rows returns exactly `t`.
pub proof fn lemma_write_parse_round_trip(t: ElemV, kw: Option<Seq<char>>)
    ensures
        attrs_have_values(t) && no_closing_names(t, kw_mode(kw)) ==> parse_rows_spec(
            elem_rows(t, kw),
        ) == Ok::<ElemV, SMLErrorV>(t),
{
    if attrs_have_values(t) && no_closing_names(t, kw_mode(kw)) {
        let rows = elem_rows(t, kw);
        let n = rows.len() as int;
        let m = kw_mode(kw);
        assert(rows =~= seq![seq![Some(t.name)]] + (interior_rows(t, kw)
            + Seq::<RowV>::empty()));
        assert(rows[0] =~= seq![Some(t.name)]);
        assert(rows[n - 1] =~= seq![kw]);
        assert(!row_is_blank(rows[n - 1]));
        assert(!row_is_blank(rows[0]));
        lemma_last_nonblank_at(rows, n - 1);
        lemma_first_nonblank_from(rows, 0, 0);
        assert(end_keyword_of_field(rows[n - 1][0]) == m);
        assert(rows[0].len() == 1 && rows[0][0] is Some);
        assert(rows.subrange(1, n) =~= interior_rows(t, kw) + Seq::<RowV>::empty());
        lemma_elem_run(t, kw, Seq::empty(), 1, Seq::empty(), None);
        assert(Seq::<ElemV>::empty().push(leaf(t.name)) =~= seq![leaf(t.name)]);
        assert(rows[0][0].unwrap() == t.name);
        assert(run(
            Seq::<RowV>::empty(),
            1 + interior_rows(t, kw).len() as int,
            m,
            Seq::<ElemV>::empty(),
            Some(t),
        ) == Ok::<ElemV, SMLErrorV>(t));
    }
}

/// How many rows of a segment open an element: the non-blank single-field
/// rows whose field does not close.
pub open spec fn opener_count(rows: Seq<RowV>, m: EndKeyword) -> nat
    decreases rows.len(),
{
    if rows.len() == 0 {
        0
    } else {
        (if rows[0].len() == 1 && !closes(rows[0][0], m) {
            1nat
        } else {
            0nat
        }) + opener_count(rows.drop_first(), m)
    }
}

/// How many rows of a segment close an element: the single-field rows whose
/// field closes.
pub open spec fn closer_count(rows: Seq<RowV>, m: EndKeyword) -> nat
    decreases rows.len(),
{
    if rows.len() == 0 {
        0
    } else {
        (if rows[0].len() == 1 && closes(rows[0][0], m) {
            1nat
        } else {
            0nat
        }) + closer_count(rows.drop_first(), m)
    }
}

proof fn lemma_run_balance(
    rem: Seq<RowV>,
    base: int,
    m: EndKeyword,
    stack: Seq<ElemV>,
    done: Option<ElemV>,
)
    requires
        run(rem, base, m, stack, done) is Ok,
    ensures
        closer_count(rem, m) == opener_count(rem, m) + stack.len(),
    decreases rem.len(),
{
    if rem.len() == 0 {
    } else if row_is_blank(rem[0]) {
        lemma_run_balance(rem.drop_first(), base + 1, m, stack, done);
    } else if rem[0].len() == 1 {
        if closes(rem[0][0], m) {
            if stack.len() == 1 {
                lemma_run_balance(rem.drop_first(), base + 1, m, Seq::empty(), Some(stack.last()));
            } else {
                lemma_run_balance(
                    rem.drop_first(),
                    base + 1,
                    m,
                    stack.drop_last().drop_last().push(
                        with_child(stack[stack.len() - 2], stack.last()),
                    ),
                    done,
                );
            }
        } else {
            lemma_run_balance(
                rem.drop_first(),
                base + 1,
                m,
                stack.push(leaf(rem[0][0].unwrap())),
                done,
            );
        }
    } else {
        lemma_run_balance(
            rem.drop_first(),
            base + 1,
            m,
            stack.drop_last().push(
                with_attr(
                    stack.last(),
                    AttrV { name: rem[0][0].unwrap(), values: rem[0].drop_first() },
                ),
            ),
            done,
        );
    }
}

proof fn lemma_run_done_stuck(
    rem: Seq<RowV>,
    base: int,
    m: EndKeyword,
    stack: Seq<ElemV>,
    done: Option<ElemV>,
)
    requires
        done is Some,
        stack.len() >= 1,
    ensures
        run(rem, base, m, stack, done) is Err,
    decreases rem.len(),
{
    if rem.len() == 0 {
    } else if row_is_blank(rem[0]) {
        lemma_run_done_stuck(rem.drop_first(), base + 1, m, stack, done);
    } else if rem[0].len() == 1 {
        if closes(rem[0][0], m) {
            if stack.len() >= 2 {
                lemma_run_done_stuck(
                    rem.drop_first(),
                    base + 1,
                    m,
                    stack.drop_last().drop_last().push(
                        with_child(stack[stack.len() - 2], stack.last()),
                    ),
                    done,
                );
            }
        } else {
            if rem[0][0] is Some {
                lemma_run_done_stuck(
                    rem.drop_first(),
                    base + 1,
                    m,
                    stack.push(leaf(rem[0][0].unwrap())),
                    done,
                );
            }
        }
    } else {
        if rem[0][0] is Some {
            lemma_run_done_stuck(
                rem.drop_first(),
                base + 1,
                m,
                stack.drop_last().push(
                    with_attr(
                        stack.last(),
                        AttrV { name: rem[0][0].unwrap(), values: rem[0].drop_first() },
                    ),
                ),
                done,
            );
        }
    }
}

proof fn lemma_run_after_done(rem: Seq<RowV>, base: int, m: EndKeyword, done: Option<ElemV>)
    requires
        done is Some,
        run(rem, base, m, Seq::empty(), done) is Ok,
    ensures
        forall|i: int| 0 <= i < rem.len() ==> row_is_blank(#[trigger] rem[i]),
    decreases rem.len(),
{
    if rem.len() == 0 {
    } else if row_is_blank(rem[0]) {
        lemma_run_after_done(rem.drop_first(), base + 1, m, done);
        assert(forall|i: int|
            1 <= i < rem.len() ==> row_is_blank(#[trigger] rem[i]) == row_is_blank(
                rem.drop_first()[i - 1],
            ));
    } else if rem[0].len() == 1 {
        if !closes(rem[0][0], m) && rem[0][0] is Some {
            lemma_run_done_stuck(
                rem.drop_first(),
                base + 1,
                m,
                seq![leaf(rem[0][0].unwrap())],
                done,
            );
            assert(Seq::<ElemV>::empty().push(leaf(rem[0][0].unwrap())) =~= seq![
                leaf(rem[0][0].unwrap()),
            ]);
            assert(false);
        } else {
            assert(false);
        }
    } else {
        assert(false);
    }
}

/// Every successful parse pops its construction stack exactly as often as it
/// pushes, the root's push and final pop included: among the rows after the
/// root row, the closing rows outnumber the opening rows by exactly one.
pub proof fn lemma_pushes_balance_pops(rows: Seq<RowV>)
    ensures
        parse_rows_spec(rows) is Ok ==> ({
            let m = end_keyword_of_field(rows[last_nonblank_at(rows)][0]);
            let body = rows.subrange(first_nonblank_from(rows, 0) + 1, rows.len() as int);
            closer_count(body, m) == opener_count(body, m) + 1
        }),
{
    if parse_rows_spec(rows) is Ok {
        let m = end_keyword_of_field(rows[last_nonblank_at(rows)][0]);
        let i0 = first_nonblank_from(rows, 0);
        let body = rows.subrange(i0 + 1, rows.len() as int);
        lemma_run_balance(body, i0 + 1, m, seq![leaf(rows[i0][0].unwrap())], None);
    }
}

/// The construction stack is empty exactly once, at the final row: once the
/// root element has been closed, a successful parse sees only blank rows.
pub proof fn lemma_stack_empties_once(rem: Seq<RowV>, base: int, m: EndKeyword, t: ElemV)
    ensures
        run(rem, base, m, Seq::empty(), Some(t)) is Ok ==> forall|i: int|
            0 <= i < rem.len() ==> row_is_blank(#[trigger] rem[i]),
{
    if run(rem, base, m, Seq::empty(), Some(t)) is Ok {
        lemma_run_after_done(rem, base, m, Some(t));
    }
}

} // verus!
