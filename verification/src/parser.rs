//! Tree assembly over tokenized rows: the mathematical model of the stack
//! grammar, and the verified parser.

use vstd::prelude::*;

use crate::errors::ParseError;
use crate::errors::SMLError;
use crate::errors::SMLErrorType;
use crate::errors::SMLErrorV;
use crate::tree::attr_model;
use crate::tree::elem_model;
use crate::tree::AttrV;
use crate::tree::ElemV;
use crate::tree::SMLAttribute;
use crate::tree::clone_field;
use crate::tree::SMLElement;
use crate::wsv::ascii_lower;
use crate::wsv::is_ascii_seq;
use crate::wsv::lower_of;
use crate::wsv::lowercase;
use crate::wsv::wsv_doc;
use crate::wsv::wsv_parse;

verus! {

broadcast use {vstd::std_specs::vec::group_vec_axioms, vstd::seq::group_seq_axioms};

/// One tokenized row: an ordered list of optional fields.
pub type RowV = Seq<Option<Seq<char>>>;

/// The sentinel that closes the currently open element: either the null
/// field, or a word compared case-insensitively (held here lowercased).
pub enum EndKeyword {
    Null,
    Word(Seq<char>),
}

/// A blank row: one with no fields at all. Blank rows are skipped entirely.
pub open spec fn row_is_blank(row: RowV) -> bool {
    row.len() == 0
}

/// The index of the last non-blank row, or -1 where every row is blank.
pub open spec fn last_nonblank_at(rows: Seq<RowV>) -> int
    decreases rows.len(),
{
    if rows.len() == 0 {
        -1
    } else if !row_is_blank(rows.last()) {
        rows.len() - 1
    } else {
        last_nonblank_at(rows.drop_last())
    }
}

/// The first index at or after `start` holding a non-blank row, or the row
/// count where only blank rows remain.
pub open spec fn first_nonblank_from(rows: Seq<RowV>, start: int) -> int
    decreases rows.len() - start,
{
    if start < 0 || start >= rows.len() {
        rows.len() as int
    } else if !row_is_blank(rows[start]) {
        start
    } else {
        first_nonblank_from(rows, start + 1)
    }
}

/// The end keyword named by a field: the null field selects null-closes mode,
/// a value selects its lowercase as the sentinel word.
pub open spec fn end_keyword_of_field(field: Option<Seq<char>>) -> EndKeyword {
    match field {
        None => EndKeyword::Null,
        Some(v) => EndKeyword::Word(lower_of(v)),
    }
}

/// Whether a single field closes the currently open element under the given
/// end keyword: null closes in null mode, and a value closes exactly when its
/// lowercase equals the sentinel word.
pub open spec fn closes(field: Option<Seq<char>>, kw: EndKeyword) -> bool {
    match kw {
        EndKeyword::Null => field is None,
        EndKeyword::Word(w) => field matches Some(v) && lower_of(v) == w,
    }
}

/// An element under construction that so far has only its name.
pub open spec fn leaf(name: Seq<char>) -> ElemV {
    ElemV { name, attributes: Seq::empty(), children: Seq::empty() }
}

/// `e` with one more child appended.
pub open spec fn with_child(e: ElemV, c: ElemV) -> ElemV {
    ElemV { name: e.name, attributes: e.attributes, children: e.children.push(c) }
}

/// `e` with one more attribute appended.
pub open spec fn with_attr(e: ElemV, a: AttrV) -> ElemV {
    ElemV { name: e.name, attributes: e.attributes.push(a), children: e.children }
}

/// A structural failure of the given kind at the given row index.
pub open spec fn sml_err(t: SMLErrorType, line: int) -> Result<ElemV, SMLErrorV> {
    Err(SMLErrorV { err_type: t, line })
}

/// The main pass of the grammar, one row at a time over the remaining rows
/// `rem`, whose first row has absolute index `base`. `stack` holds the
/// elements under construction (top last); `done` holds the root element once
/// its closing row has been seen.
pub open spec fn run(
    rem: Seq<RowV>,
    base: int,
    kw: EndKeyword,
    stack: Seq<ElemV>,
    done: Option<ElemV>,
) -> Result<ElemV, SMLErrorV>
    decreases rem.len(),
{
    if rem.len() == 0 {
        if stack.len() == 0 && done is Some {
            Ok(done.unwrap())
        } else {
            sml_err(SMLErrorType::RootNotClosed, base)
        }
    } else if row_is_blank(rem[0]) {
        run(rem.drop_first(), base + 1, kw, stack, done)
    } else if rem[0].len() == 1 {
        if closes(rem[0][0], kw) {
            if stack.len() == 0 {
                sml_err(SMLErrorType::OnlyOneRootElementAllowed, base)
            } else if stack.len() == 1 {
                if done is Some {
                    sml_err(SMLErrorType::OnlyOneRootElementAllowed, base)
                } else {
                    run(rem.drop_first(), base + 1, kw, Seq::empty(), Some(stack.last()))
                }
            } else {
                run(
                    rem.drop_first(),
                    base + 1,
                    kw,
                    stack.drop_last().drop_last().push(
                        with_child(stack[stack.len() - 2], stack.last()),
                    ),
                    done,
                )
            }
        } else {
            match rem[0][0] {
                None => sml_err(SMLErrorType::NullValueAsElementName, base),
                Some(name) => run(rem.drop_first(), base + 1, kw, stack.push(leaf(name)), done),
            }
        }
    } else {
        match rem[0][0] {
            None => sml_err(SMLErrorType::NullValueAsAttributeName, base),
            Some(aname) => {
                if stack.len() == 0 {
                    sml_err(SMLErrorType::OnlyOneRootElementAllowed, base)
                } else {
                    run(
                        rem.drop_first(),
                        base + 1,
                        kw,
                        stack.drop_last().push(
                            with_attr(
                                stack.last(),
                                AttrV { name: aname, values: rem[0].drop_first() },
                            ),
                        ),
                        done,
                    )
                }
            },
        }
    }
}

/// What parsing a row sequence yields: the single root element, or the first
/// structural failure. The end keyword is read from the last non-blank row,
/// the root name from the first, and the main pass runs over the rest.
pub open spec fn parse_rows_spec(rows: Seq<RowV>) -> Result<ElemV, SMLErrorV> {
    let j = last_nonblank_at(rows);
    if j < 0 {
        sml_err(SMLErrorType::EndKeywordNotDetected, rows.len() as int)
    } else {
        let kw = end_keyword_of_field(rows[j][0]);
        let i0 = first_nonblank_from(rows, 0);
        if rows[i0].len() != 1 {
            sml_err(SMLErrorType::InvalidRootElementStart, i0)
        } else if rows[i0][0] is None {
            sml_err(SMLErrorType::NullValueAsElementName, i0)
        } else {
            run(
                rows.subrange(i0 + 1, rows.len() as int),
                i0 + 1,
                kw,
                seq![leaf(rows[i0][0].unwrap())],
                None,
            )
        }
    }
}

/// The index that `last_nonblank_at` yields is the one after which only
/// blank rows follow.
pub proof fn lemma_last_nonblank_at(rows: Seq<RowV>, j: int)
    requires
        -1 <= j < rows.len(),
        j >= 0 ==> !row_is_blank(rows[j]),
        forall|k: int| j < k < rows.len() ==> row_is_blank(#[trigger] rows[k]),
    ensures
        last_nonblank_at(rows) == j,
    decreases rows.len(),
{
    if rows.len() == 0 {
    } else if j == rows.len() - 1 {
    } else {
        assert(row_is_blank(rows.last()));
        lemma_last_nonblank_at(rows.drop_last(), j);
    }
}

/// The index that `first_nonblank_from` yields is the first at or after
/// `start` before which only blank rows stand.
pub proof fn lemma_first_nonblank_from(rows: Seq<RowV>, start: int, i0: int)
    requires
        0 <= start <= i0 <= rows.len(),
        forall|k: int| start <= k < i0 ==> row_is_blank(#[trigger] rows[k]),
        i0 < rows.len() ==> !row_is_blank(rows[i0]),
    ensures
        first_nonblank_from(rows, start) == if i0 < rows.len() {
            i0
        } else {
            rows.len() as int
        },
    decreases i0 - start,
{
    if start < i0 {
        lemma_first_nonblank_from(rows, start + 1, i0);
    }
}

proof fn lemma_leaf_model(e: SMLElement)
    requires
        e.attributes@.len() == 0,
        e.children@.len() == 0,
    ensures
        elem_model(e) == leaf(e.name@),
{
    assert(elem_model(e).attributes =~= leaf(e.name@).attributes);
    assert(elem_model(e).children =~= leaf(e.name@).children);
    assert(elem_model(e) =~~= leaf(e.name@));
}

proof fn lemma_with_child_model(pre: SMLElement, post: SMLElement, c: SMLElement)
    requires
        post.name@ == pre.name@,
        post.attributes@ == pre.attributes@,
        post.children@ == pre.children@.push(c),
    ensures
        elem_model(post) == with_child(elem_model(pre), elem_model(c)),
{
    assert(elem_model(post).attributes =~= elem_model(pre).attributes);
    assert(elem_model(post).children =~= elem_model(pre).children.push(elem_model(c)));
    assert(elem_model(post) =~~= with_child(elem_model(pre), elem_model(c)));
}

proof fn lemma_with_attr_model(pre: SMLElement, post: SMLElement, a: SMLAttribute)
    requires
        post.name@ == pre.name@,
        post.attributes@ == pre.attributes@.push(a),
        post.children@ == pre.children@,
    ensures
        elem_model(post) == with_attr(elem_model(pre), attr_model(a)),
{
    assert(elem_model(post).attributes =~= elem_model(pre).attributes.push(attr_model(a)));
    assert(elem_model(post).children =~= elem_model(pre).children);
    assert(elem_model(post) =~~= with_attr(elem_model(pre), attr_model(a)));
}

/// Assembles the element tree that a row sequence describes, as
/// `parse_rows_spec` states: the end keyword is read from the last non-blank
/// row, the first non-blank row names the root, and every further non-blank
/// row either opens an element, closes the innermost open one, or attaches an
/// attribute to it.
pub fn parse_rows(rows: Vec<Vec<Option<String>>>) -> (r: Result<SMLElement, SMLError>)
    ensures
        match r {
            Ok(elem) => parse_rows_spec(rows.deep_view()) == Ok::<ElemV, SMLErrorV>(elem@),
            Err(e) => parse_rows_spec(rows.deep_view()) == Err::<ElemV, SMLErrorV>(e@),
        },
{
    let ghost rowsv = rows.deep_view();
    let n = rows.len();

    // Scan backward for the last non-blank row, which names the end keyword.
    let mut j = n;
    while j > 0 && rows[j - 1].len() == 0
        invariant
            j <= n,
            n == rows.len(),
            rowsv == rows.deep_view(),
            forall|k: int| j <= k < n ==> row_is_blank(#[trigger] rowsv[k]),
        decreases j,
    {
        j = j - 1;
    }
    if j == 0 {
        proof {
            lemma_last_nonblank_at(rowsv, -1);
        }
        return Err(SMLError { err_type: SMLErrorType::EndKeywordNotDetected, line_num: n });
    }
    let jl = j - 1;
    proof {
        lemma_last_nonblank_at(rowsv, jl as int);
        assert(rowsv[jl as int].len() == rows@[jl as int]@.len());
    }
    let end_kw: Option<String> = match &rows[jl][0] {
        None => None,
        Some(s) => Some(lowercase(s.as_str())),
    };
    let ghost kwv = end_keyword_of_field(rowsv[jl as int][0]);
    proof {
        assert(match end_kw {
            None => kwv == EndKeyword::Null,
            Some(s) => kwv == EndKeyword::Word(s@),
        });
    }

    // Scan forward for the first non-blank row, which names the root.
    let mut i: usize = 0;
    while i < n && rows[i].len() == 0
        invariant
            i <= n,
            n == rows.len(),
            rowsv == rows.deep_view(),
            forall|k: int| 0 <= k < i ==> row_is_blank(#[trigger] rowsv[k]),
        decreases n - i,
    {
        i = i + 1;
    }
    proof {
        assert(i <= jl) by {
            if i > jl {
                assert(row_is_blank(rowsv[jl as int]));
            }
        }
        lemma_first_nonblank_from(rowsv, 0, i as int);
    }
    if rows[i].len() != 1 {
        return Err(SMLError { err_type: SMLErrorType::InvalidRootElementStart, line_num: i });
    }
    let root_name = match &rows[i][0] {
        None => {
            return Err(SMLError { err_type: SMLErrorType::NullValueAsElementName, line_num: i });
        },
        Some(s) => s.clone(),
    };
    let ghost i0 = i as int;

    let mut stack: Vec<SMLElement> = Vec::new();
    stack.push(SMLElement { name: root_name, attributes: Vec::new(), children: Vec::new() });
    let mut done_elem: Option<SMLElement> = None;
    let mut idx: usize = i + 1;
    proof {
        lemma_leaf_model(stack@[0]);
        assert(stack.deep_view() =~= seq![leaf(rowsv[i0][0].unwrap())]);
        assert(parse_rows_spec(rowsv) == run(
            rowsv.subrange(i0 + 1, n as int),
            i0 + 1,
            kwv,
            stack.deep_view(),
            done_elem.deep_view(),
        ));
    }

    while idx < n
        invariant
            idx <= n,
            n == rows.len(),
            rowsv == rows.deep_view(),
            run(
                rowsv.subrange(idx as int, n as int),
                idx as int,
                kwv,
                stack.deep_view(),
                done_elem.deep_view(),
            ) == parse_rows_spec(rowsv),
            match end_kw {
                None => kwv == EndKeyword::Null,
                Some(s) => kwv == EndKeyword::Word(s@),
            },
        decreases n - idx,
    {
        let ghost pre_rem = rowsv.subrange(idx as int, n as int);
        let ghost pre_stack = stack.deep_view();
        let ghost pre_done = done_elem.deep_view();
        proof {
            assert(pre_rem[0] == rowsv[idx as int]);
            assert(pre_rem.drop_first() =~= rowsv.subrange(idx as int + 1, n as int));
            assert(rowsv[idx as int].len() == rows@[idx as int]@.len());
        }
        let row_len = rows[idx].len();
        if row_len == 0 {
            idx = idx + 1;
            continue ;
        }
        if row_len == 1 {
            let is_closer = match &rows[idx][0] {
                None => end_kw.is_none(),
                Some(v) => match &end_kw {
                    None => false,
                    Some(k) => {
                        let lv = lowercase(v.as_str());
                        lv == *k
                    },
                },
            };
            proof {
                assert(is_closer == closes(rowsv[idx as int][0], kwv));
            }
            if is_closer {
                let top = match stack.pop() {
                    None => {
                        return Err(
                            SMLError {
                                err_type: SMLErrorType::OnlyOneRootElementAllowed,
                                line_num: idx,
                            },
                        );
                    },
                    Some(t) => t,
                };
                proof {
                    assert(top@ == pre_stack.last());
                    assert(stack.deep_view() =~= pre_stack.drop_last());
                }
                if stack.len() == 0 {
                    if done_elem.is_some() {
                        return Err(
                            SMLError {
                                err_type: SMLErrorType::OnlyOneRootElementAllowed,
                                line_num: idx,
                            },
                        );
                    }
                    done_elem = Some(top);
                    proof {
                        assert(stack.deep_view() =~= Seq::<ElemV>::empty());
                    }
                } else {
                    let mut parent = match stack.pop() {
                        None => unreached(),
                        Some(p) => p,
                    };
                    let ghost pre_parent = parent;
                    let ghost top_g = top;
                    parent.children.push(top);
                    proof {
                        lemma_with_child_model(pre_parent, parent, top_g);
                    }
                    stack.push(parent);
                    proof {
                        assert(stack.deep_view() =~= pre_stack.drop_last().drop_last().push(
                            with_child(pre_stack[pre_stack.len() - 2], pre_stack.last()),
                        ));
                    }
                }
            } else {
                match &rows[idx][0] {
                    None => {
                        return Err(
                            SMLError {
                                err_type: SMLErrorType::NullValueAsElementName,
                                line_num: idx,
                            },
                        );
                    },
                    Some(nm) => {
                        let name = nm.clone();
                        let elem = SMLElement { name, attributes: Vec::new(), children: Vec::new() };
                        proof {
                            lemma_leaf_model(elem);
                        }
                        stack.push(elem);
                        proof {
                            assert(stack.deep_view() =~= pre_stack.push(
                                leaf(rowsv[idx as int][0].unwrap()),
                            ));
                        }
                    },
                }
            }
        } else {
            let aname = match &rows[idx][0] {
                None => {
                    return Err(
                        SMLError {
                            err_type: SMLErrorType::NullValueAsAttributeName,
                            line_num: idx,
                        },
                    );
                },
                Some(s) => s.clone(),
            };
            if stack.len() == 0 {
                return Err(
                    SMLError { err_type: SMLErrorType::OnlyOneRootElementAllowed, line_num: idx },
                );
            }
            let ghost anv = aname@;
            let mut vals: Vec<Option<String>> = Vec::new();
            let mut k: usize = 1;
            while k < row_len
                invariant
                    1 <= k <= row_len,
                    idx < n,
                    n == rows.len(),
                    rowsv == rows.deep_view(),
                    row_len == rowsv[idx as int].len(),
                    vals.deep_view() =~= rowsv[idx as int].subrange(1, k as int),
                decreases row_len - k,
            {
                let f = clone_field(&rows[idx][k]);
                vals.push(f);
                proof {
                    assert(rowsv[idx as int].subrange(1, k as int + 1) =~= rowsv[
                        idx as int
                    ].subrange(1, k as int).push(rowsv[idx as int][k as int]));
                    assert(vals.deep_view() =~= rowsv[idx as int].subrange(1, k as int + 1));
                }
                k = k + 1;
            }
            proof {
                assert(vals.deep_view() =~= rowsv[idx as int].drop_first());
            }
            let mut top = match stack.pop() {
                None => unreached(),
                Some(t) => t,
            };
            let ghost pre_top = top;
            let attr = SMLAttribute { name: aname, values: vals };
            let ghost attr_g = attr;
            top.attributes.push(attr);
            proof {
                lemma_with_attr_model(pre_top, top, attr_g);
                assert(attr_model(attr_g) =~~= AttrV {
                    name: anv,
                    values: rowsv[idx as int].drop_first(),
                });
            }
            stack.push(top);
            proof {
                assert(stack.deep_view() =~= pre_stack.drop_last().push(
                    with_attr(
                        pre_stack.last(),
                        AttrV { name: anv, values: rowsv[idx as int].drop_first() },
                    ),
                ));
            }
        }
        idx = idx + 1;
    }
    proof {
        assert(rowsv.subrange(n as int, n as int) =~= Seq::<RowV>::empty());
    }
    if stack.len() == 0 {
        match done_elem {
            Some(t) => {
                return Ok(t);
            },
            None => {
                return Err(SMLError { err_type: SMLErrorType::RootNotClosed, line_num: n });
            },
        }
    }
    Err(SMLError { err_type: SMLErrorType::RootNotClosed, line_num: n })
}

/// Whether a single-field row holding `value` closes an element under the
/// end keyword `keyword`, as the parser decides it: both sides are lowercased
/// and compared. On ASCII text this is exactly ASCII case-insensitive
/// equality, so `End` is closed by `end` and by `END` alike.
pub fn matches_end_keyword(value: &str, keyword: &str) -> (b: bool)
    ensures
        b == closes(Some(value@), EndKeyword::Word(lower_of(keyword@))),
        is_ascii_seq(value@) && is_ascii_seq(keyword@) ==> b == (ascii_lower(value@)
            == ascii_lower(keyword@)),
{
    let lv = lowercase(value);
    let lk = lowercase(keyword);
    lv == lk
}

/// Parses SML source text: the row tokenizer turns the text into rows, and
/// the rows are assembled into the single root element.
pub fn parse(source_text: &str) -> (r: Result<SMLElement, ParseError>)
    ensures
        match r {
            Ok(elem) => wsv_doc(source_text@) matches Some(rows) && parse_rows_spec(rows)
                == Ok::<ElemV, SMLErrorV>(elem@),
            Err(ParseError::SML(e)) => wsv_doc(source_text@) matches Some(rows)
                && parse_rows_spec(rows) == Err::<ElemV, SMLErrorV>(e@),
            Err(ParseError::WSV(_)) => wsv_doc(source_text@) is None,
        },
{
    match wsv_parse(source_text) {
        Err(e) => Err(ParseError::WSV(e)),
        Ok(rows) => match parse_rows(rows) {
            Ok(t) => Ok(t),
            Err(e) => Err(ParseError::SML(e)),
        },
    }
}

} // verus!
