//! Serialization of an element tree back to text, with configurable
//! indentation, column alignment and end keyword.

use vstd::prelude::*;

use crate::errors::SMLWriterError;
use crate::tree::clone_field;
use crate::tree::AttrV;
use crate::tree::ElemV;
use crate::tree::SMLElement;
use crate::wsv::push_char_to;
use crate::wsv::push_str_to;
use crate::wsv::str_chars;
use crate::wsv::string_from_chars;
use crate::wsv::wsv_aligned;
use crate::wsv::wsv_packed;
use crate::wsv::wsv_render_aligned;
use crate::wsv::wsv_render_packed;

verus! {

broadcast use {vstd::std_specs::vec::group_vec_axioms, vstd::seq::group_seq_axioms};

/// How the attribute rows of one element are laid out: packed with minimal
/// separation, or padded to a common column width on the left or right edge.
#[derive(Debug, Clone, Copy, PartialEq, Eq, Structural)]
pub enum ColumnAlignment {
    Left,
    Right,
    Packed,
}

impl Default for ColumnAlignment {
    /// The default layout packs fields with minimal separation.
    fn default() -> (r: Self)
        ensures
            r == ColumnAlignment::Packed,
    {
        ColumnAlignment::Packed
    }
}

/// The whitespace characters accepted in an indentation string, and quoted
/// inside an end keyword: the WSV set, which does not include the newline.
pub open spec fn is_sml_whitespace(c: char) -> bool {
    c == '\u{0009}' || c == '\u{000B}' || c == '\u{000C}' || c == '\u{000D}' || c == '\u{0020}'
        || c == '\u{0085}' || c == '\u{00A0}' || c == '\u{1680}' || c == '\u{2000}' || c
        == '\u{2001}' || c == '\u{2002}' || c == '\u{2003}' || c == '\u{2004}' || c == '\u{2005}'
        || c == '\u{2006}' || c == '\u{2007}' || c == '\u{2008}' || c == '\u{2009}' || c
        == '\u{200A}' || c == '\u{2028}' || c == '\u{2029}' || c == '\u{202F}' || c == '\u{205F}'
        || c == '\u{3000}'
}

/// Whether an end keyword must be quoted in the output: it holds a quote, a
/// comment mark, a newline or whitespace, or it is exactly the null token.
pub open spec fn kw_needs_quotes(s: Seq<char>) -> bool {
    (exists|i: int|
        0 <= i < s.len() && (s[i] == '"' || s[i] == '#' || s[i] == '\n' || is_sml_whitespace(
            s[i],
        ))) || s == seq!['-']
}

/// How one character of a quoted end keyword is written: quotes are doubled
/// and a newline becomes the `"/"` escape.
pub open spec fn escape_unit(c: char) -> Seq<char> {
    if c == '"' {
        seq!['"', '"']
    } else if c == '\n' {
        seq!['"', '/', '"']
    } else {
        seq![c]
    }
}

/// The body of a quoted end keyword: each character escaped in place.
pub open spec fn escape_kw(s: Seq<char>) -> Seq<char>
    decreases s.len(),
{
    if s.len() == 0 {
        Seq::empty()
    } else {
        escape_unit(s[0]) + escape_kw(s.drop_first())
    }
}

/// The end keyword as it appears in the output: verbatim where no quoting is
/// needed, otherwise wrapped in quotes with its characters escaped.
pub open spec fn encoded_end_keyword(s: Seq<char>) -> Seq<char> {
    if !kw_needs_quotes(s) {
        s
    } else {
        seq!['"'] + escape_kw(s) + seq!['"']
    }
}

/// The indentation prefix of one output line at the given nesting depth.
pub open spec fn ind(indent: Seq<char>, depth: nat) -> Seq<char>
    decreases depth,
{
    if depth == 0 {
        Seq::empty()
    } else {
        ind(indent, (depth - 1) as nat) + indent
    }
}

/// `s` with `pad` inserted after every newline character.
pub open spec fn pad_newlines(s: Seq<char>, pad: Seq<char>) -> Seq<char>
    decreases s.len(),
{
    if s.len() == 0 {
        Seq::empty()
    } else if s[0] == '\n' {
        seq!['\n'] + pad + pad_newlines(s.drop_first(), pad)
    } else {
        seq![s[0]] + pad_newlines(s.drop_first(), pad)
    }
}

/// The rows handed to the row writer for an attribute list: each attribute
/// becomes one row of its name followed by its values.
pub open spec fn attr_rows_of(attrs: Seq<AttrV>) -> Seq<Seq<Option<Seq<char>>>> {
    attrs.map(|i: int, a: AttrV| seq![Some(a.name)] + a.values)
}

/// The text block the row writer yields for an attribute list under the
/// chosen alignment.
pub open spec fn attr_block(attrs: Seq<AttrV>, align: ColumnAlignment) -> Seq<char> {
    match align {
        ColumnAlignment::Packed => wsv_packed(attr_rows_of(attrs)),
        ColumnAlignment::Left => wsv_aligned(attr_rows_of(attrs), false),
        ColumnAlignment::Right => wsv_aligned(attr_rows_of(attrs), true),
    }
}

/// The token written on every closing line: the encoded end keyword, or the
/// null token `-` where none is configured.
pub open spec fn closer_token(kw: Option<Seq<char>>) -> Seq<char> {
    match kw {
        None => seq!['-'],
        Some(k) => k,
    }
}

/// The first failure that writing `e` meets, in pre-order: an element whose
/// name equals the configured end keyword, then an attribute whose name does,
/// then the children in order. Without an end keyword writing never fails.
pub open spec fn write_err_of(e: ElemV, kw: Option<Seq<char>>) -> Option<SMLWriterError>
    decreases e,
{
    match kw {
        None => None,
        Some(k) => if e.name == k {
            Some(SMLWriterError::ElementHasEndKeywordName)
        } else if exists|i: int| 0 <= i < e.attributes.len() && e.attributes[i].name == k {
            Some(SMLWriterError::AttributeHasEndKeywordName)
        } else {
            write_err_children(e.children, kw)
        },
    }
}

/// The first failure among a list of elements, in order.
pub open spec fn write_err_children(cs: Seq<ElemV>, kw: Option<Seq<char>>) -> Option<
    SMLWriterError,
>
    decreases cs,
{
    if cs.len() == 0 {
        None
    } else {
        match write_err_of(cs[0], kw) {
            Some(er) => Some(er),
            None => write_err_children(cs.drop_first(), kw),
        }
    }
}

/// The text written for one element at the given depth: its indented name
/// line, the attribute block re-indented one level deeper, the children, and
/// the indented closing line.
pub open spec fn write_elem_text(
    e: ElemV,
    depth: nat,
    align: ColumnAlignment,
    indent: Seq<char>,
    kw: Option<Seq<char>>,
) -> Seq<char>
    decreases e,
{
    ind(indent, depth) + e.name + (if e.attributes.len() > 0 {
        seq!['\n'] + ind(indent, depth + 1) + pad_newlines(
            attr_block(e.attributes, align),
            ind(indent, depth + 1),
        )
    } else {
        Seq::empty()
    }) + write_children_text(e.children, depth + 1, align, indent, kw) + seq!['\n'] + ind(
        indent,
        depth,
    ) + closer_token(kw)
}

/// The text written for a list of sibling elements, each preceded by a
/// newline.
pub open spec fn write_children_text(
    cs: Seq<ElemV>,
    depth: nat,
    align: ColumnAlignment,
    indent: Seq<char>,
    kw: Option<Seq<char>>,
) -> Seq<char>
    decreases cs,
{
    if cs.len() == 0 {
        Seq::empty()
    } else {
        seq!['\n'] + write_elem_text(cs[0], depth, align, indent, kw) + write_children_text(
            cs.drop_first(),
            depth,
            align,
            indent,
            kw,
        )
    }
}

proof fn lemma_vec_deep_view_pointwise<T: DeepView>(v: &Vec<T>)
    ensures
        v.deep_view().len() == v@.len(),
        forall|i: int| 0 <= i < v@.len() ==> v.deep_view()[i] == #[trigger] v@[i].deep_view(),
{
}

proof fn lemma_escape_kw_push(s: Seq<char>, c: char)
    ensures
        escape_kw(s.push(c)) == escape_kw(s) + escape_unit(c),
    decreases s.len(),
{
    reveal_with_fuel(escape_kw, 3);
    if s.len() == 0 {
        assert(s.push(c).drop_first() =~= Seq::<char>::empty());
        assert(escape_kw(s.push(c)) =~= escape_kw(s) + escape_unit(c));
    } else {
        assert(s.push(c).drop_first() =~= s.drop_first().push(c));
        lemma_escape_kw_push(s.drop_first(), c);
        assert(escape_kw(s.push(c)) =~= escape_kw(s) + escape_unit(c));
    }
}

proof fn lemma_pad_newlines_push(s: Seq<char>, c: char, pad: Seq<char>)
    ensures
        pad_newlines(s.push(c), pad) == pad_newlines(s, pad) + (if c == '\n' {
            seq!['\n'] + pad
        } else {
            seq![c]
        }),
    decreases s.len(),
{
    reveal_with_fuel(pad_newlines, 3);
    if s.len() == 0 {
        assert(s.push(c).drop_first() =~= Seq::<char>::empty());
        assert(pad_newlines(s.push(c), pad) =~= pad_newlines(s, pad) + (if c == '\n' {
            seq!['\n'] + pad
        } else {
            seq![c]
        }));
    } else {
        assert(s.push(c).drop_first() =~= s.drop_first().push(c));
        lemma_pad_newlines_push(s.drop_first(), c, pad);
        assert(pad_newlines(s.push(c), pad) =~= pad_newlines(s, pad) + (if c == '\n' {
            seq!['\n'] + pad
        } else {
            seq![c]
        }));
    }
}

proof fn lemma_children_text_push(
    cs: Seq<ElemV>,
    c: ElemV,
    depth: nat,
    align: ColumnAlignment,
    indent: Seq<char>,
    kw: Option<Seq<char>>,
)
    ensures
        write_children_text(cs.push(c), depth, align, indent, kw) == write_children_text(
            cs,
            depth,
            align,
            indent,
            kw,
        ) + seq!['\n'] + write_elem_text(c, depth, align, indent, kw),
    decreases cs.len(),
{
    reveal_with_fuel(write_children_text, 3);
    if cs.len() == 0 {
        assert(cs.push(c).drop_first() =~= Seq::<ElemV>::empty());
        assert(write_children_text(cs.push(c), depth, align, indent, kw) =~= write_children_text(
            cs,
            depth,
            align,
            indent,
            kw,
        ) + seq!['\n'] + write_elem_text(c, depth, align, indent, kw));
    } else {
        assert(cs.push(c).drop_first() =~= cs.drop_first().push(c));
        lemma_children_text_push(cs.drop_first(), c, depth, align, indent, kw);
        assert(write_children_text(cs.push(c), depth, align, indent, kw) =~= write_children_text(
            cs,
            depth,
            align,
            indent,
            kw,
        ) + seq!['\n'] + write_elem_text(c, depth, align, indent, kw));
    }
}

proof fn lemma_err_children_all_ok(cs: Seq<ElemV>, kw: Option<Seq<char>>)
    requires
        forall|j: int| 0 <= j < cs.len() ==> write_err_of(#[trigger] cs[j], kw) is None,
    ensures
        write_err_children(cs, kw) is None,
    decreases cs.len(),
{
    if cs.len() > 0 {
        assert(write_err_of(cs[0], kw) is None);
        lemma_err_children_all_ok(cs.drop_first(), kw);
    }
}

proof fn lemma_err_children_first(cs: Seq<ElemV>, kw: Option<Seq<char>>, i: int, er: SMLWriterError)
    requires
        0 <= i < cs.len(),
        forall|j: int| 0 <= j < i ==> write_err_of(#[trigger] cs[j], kw) is None,
        write_err_of(cs[i], kw) == Some(er),
    ensures
        write_err_children(cs, kw) == Some(er),
    decreases i,
{
    if i > 0 {
        lemma_err_children_first(cs.drop_first(), kw, i - 1, er);
    }
}

/// Writes one element tree as SML text.
pub struct SMLWriter {
    /// The indentation unit, repeated once per nesting level.
    pub indent_str: String,
    /// The end keyword as it will appear in the output, already quoted and
    /// escaped where needed; `None` writes the null token `-` as every
    /// closing line.
    pub end_keyword: Option<String>,
    /// How the attribute rows of each element are laid out.
    pub column_alignment: ColumnAlignment,
    /// The tree to write.
    pub values: SMLElement,
}

impl SMLWriter {
    fn is_whitespace(ch: char) -> (r: bool)
        ensures
            r == is_sml_whitespace(ch),
    {
        match ch {
            '\u{0009}' | '\u{000B}' | '\u{000C}' | '\u{000D}' | '\u{0020}' | '\u{0085}'
            | '\u{00A0}' | '\u{1680}' | '\u{2000}' | '\u{2001}' | '\u{2002}' | '\u{2003}'
            | '\u{2004}' | '\u{2005}' | '\u{2006}' | '\u{2007}' | '\u{2008}' | '\u{2009}'
            | '\u{200A}' | '\u{2028}' | '\u{2029}' | '\u{202F}' | '\u{205F}' | '\u{3000}' => true,
            _ => false,
        }
    }

    /// A writer for `values` with the default configuration: four spaces of
    /// indentation, packed attribute rows, and the null token as the closer.
    pub fn new(values: SMLElement) -> (w: Self)
        ensures
            w.values == values,
            w.indent_str@ == "    "@,
            w.end_keyword is None,
            w.column_alignment == ColumnAlignment::Packed,
    {
        SMLWriter {
            indent_str: "    ".to_owned(),
            end_keyword: None,
            column_alignment: ColumnAlignment::Packed,
            values,
        }
    }

    /// Sets the indentation string. The call fails, before any text is
    /// produced, exactly when the string holds any non-whitespace character.
    pub fn indent_with(self, s: &str) -> (r: Option<Self>)
        ensures
            match r {
                Some(w) => (forall|i: int| 0 <= i < s@.len() ==> is_sml_whitespace(s@[i]))
                    && w.indent_str@ == s@ && w.end_keyword == self.end_keyword
                    && w.column_alignment == self.column_alignment && w.values == self.values,
                None => !(forall|i: int| 0 <= i < s@.len() ==> is_sml_whitespace(s@[i])),
            },
    {
        let cs = str_chars(s);
        let mut m: usize = 0;
        while m < cs.len()
            invariant
                m <= cs.len(),
                cs@ == s@,
                forall|i: int| 0 <= i < m ==> is_sml_whitespace(s@[i]),
            decreases cs.len() - m,
        {
            if !Self::is_whitespace(cs[m]) {
                return None;
            }
            m = m + 1;
        }
        Some(SMLWriter { indent_str: s.to_owned(), ..self })
    }

    /// Sets the end keyword used on every closing line, encoding it for the
    /// output: quoted and escaped where it could not stand as one plain
    /// token. `None` or the empty string select the null token `-` instead.
    pub fn with_end_keyword(self, kw: Option<&str>) -> (w: Self)
        ensures
            w.indent_str == self.indent_str,
            w.column_alignment == self.column_alignment,
            w.values == self.values,
            match kw {
                None => w.end_keyword is None,
                Some(s) => if s@.len() == 0 {
                    w.end_keyword is None
                } else {
                    w.end_keyword matches Some(e) && e@ == encoded_end_keyword(s@)
                },
            },
    {
        match kw {
            None => SMLWriter { end_keyword: None, ..self },
            Some(s) => {
                let cs = str_chars(s);
                if cs.len() == 0 {
                    return SMLWriter { end_keyword: None, ..self };
                }
                let is_dash = cs.len() == 1 && cs[0] == '-';
                proof {
                    if is_dash {
                        assert(s@ =~= seq!['-']);
                    }
                    if s@ == seq!['-'] {
                        assert(cs.len() == 1 && cs[0] == '-');
                    }
                }
                let mut needs: bool = is_dash;
                let mut m: usize = 0;
                while m < cs.len()
                    invariant
                        m <= cs.len(),
                        cs@ == s@,
                        needs == ((exists|i: int|
                            0 <= i < m && (s@[i] == '"' || s@[i] == '#' || s@[i] == '\n'
                                || is_sml_whitespace(s@[i]))) || s@ == seq!['-']),
                    decreases cs.len() - m,
                {
                    let c = cs[m];
                    if c == '"' || c == '#' || c == '\n' || Self::is_whitespace(c) {
                        needs = true;
                    }
                    m = m + 1;
                }
                proof {
                    assert(needs == kw_needs_quotes(s@));
                }
                if !needs {
                    return SMLWriter { end_keyword: Some(s.to_owned()), ..self };
                }
                let mut out: Vec<char> = Vec::new();
                out.push('"');
                let mut m2: usize = 0;
                while m2 < cs.len()
                    invariant
                        m2 <= cs.len(),
                        cs@ == s@,
                        out@ == seq!['"'] + escape_kw(s@.subrange(0, m2 as int)),
                    decreases cs.len() - m2,
                {
                    let c = cs[m2];
                    if c == '"' {
                        out.push('"');
                        out.push('"');
                    } else if c == '\n' {
                        out.push('"');
                        out.push('/');
                        out.push('"');
                    } else {
                        out.push(c);
                    }
                    proof {
                        assert(s@.subrange(0, m2 as int + 1) =~= s@.subrange(0, m2 as int).push(
                            s@[m2 as int],
                        ));
                        lemma_escape_kw_push(s@.subrange(0, m2 as int), s@[m2 as int]);
                        assert(out@ =~= seq!['"'] + escape_kw(s@.subrange(0, m2 as int + 1)));
                    }
                    m2 = m2 + 1;
                }
                out.push('"');
                proof {
                    assert(s@.subrange(0, s@.len() as int) =~= s@);
                    assert(out@ =~= encoded_end_keyword(s@));
                }
                SMLWriter { end_keyword: Some(string_from_chars(out)), ..self }
            },
        }
    }

    /// Sets the column alignment of the attributes' generated rows. Element
    /// lines are unaffected.
    pub fn align_columns(self, alignment: ColumnAlignment) -> (w: Self)
        ensures
            w.column_alignment == alignment,
            w.indent_str == self.indent_str,
            w.end_keyword == self.end_keyword,
            w.values == self.values,
    {
        SMLWriter { column_alignment: alignment, ..self }
    }

    /// Writes the tree to text as `write_elem_text` states, or fails with the
    /// first element or attribute whose name equals the configured end
    /// keyword, producing no text.
    pub fn to_string(self) -> (r: Result<String, SMLWriterError>)
        ensures
            match r {
                Ok(text) => write_err_of(self.values@, self.end_keyword.deep_view()) is None
                    && text@ == write_elem_text(
                    self.values@,
                    0,
                    self.column_alignment,
                    self.indent_str@,
                    self.end_keyword.deep_view(),
                ),
                Err(er) => write_err_of(self.values@, self.end_keyword.deep_view()) == Some(er),
            },
    {
        let mut buf = String::new();
        let pad = String::new();
        let child_pad = self.indent_str.clone();
        proof {
            assert(pad@ =~= ind(self.indent_str@, 0));
            assert(child_pad@ =~= ind(self.indent_str@, 1));
        }
        match write_node(
            &self.values,
            &pad,
            &child_pad,
            Ghost(0nat),
            self.column_alignment,
            &self.indent_str,
            &self.end_keyword,
            &mut buf,
        ) {
            Ok(_) => {
                proof {
                    assert(buf@ =~= write_elem_text(
                        self.values@,
                        0,
                        self.column_alignment,
                        self.indent_str@,
                        self.end_keyword.deep_view(),
                    ));
                }
                Ok(buf)
            },
            Err(er) => Err(er),
        }
    }
}

#[verifier::rlimit(60)]
#[verifier::spinoff_prover]
fn write_node(
    e: &SMLElement,
    pad: &String,
    child_pad: &String,
    depth: Ghost<nat>,
    align: ColumnAlignment,
    indent: &String,
    end_kw: &Option<String>,
    buf: &mut String,
) -> (r: Result<(), SMLWriterError>)
    requires
        pad@ == ind(indent@, depth@),
        child_pad@ == ind(indent@, depth@ + 1),
    ensures
        match r {
            Ok(_) => write_err_of(e@, end_kw.deep_view()) is None && final(buf)@ == old(buf)@
                + write_elem_text(e@, depth@, align, indent@, end_kw.deep_view()),
            Err(er) => write_err_of(e@, end_kw.deep_view()) == Some(er),
        },
    decreases *e,
{
    let ghost kwv = end_kw.deep_view();
    let ghost base = buf@;
    match end_kw {
        Some(k) => {
            if e.name == *k {
                return Err(SMLWriterError::ElementHasEndKeywordName);
            }
        },
        None => {},
    }
    push_str_to(buf, pad.as_str());
    push_str_to(buf, e.name.as_str());

    match end_kw {
        Some(k) => {
            let mut ai: usize = 0;
            while ai < e.attributes.len()
                invariant
                    ai <= e.attributes@.len(),
                    kwv == end_kw.deep_view(),
                    kwv == Some(k@),
                    e@.name != k@,
                    forall|i: int| 0 <= i < ai ==> e@.attributes[i].name != k@,
                decreases e.attributes@.len() - ai,
            {
                if e.attributes[ai].name == *k {
                    proof {
                        assert(kwv == Some(k@));
                        assert(e@.name != k@);
                        assert(e@.attributes[ai as int].name == k@);
                        assert(exists|i: int|
                            0 <= i < e@.attributes.len() && e@.attributes[i].name == k@);
                        assert(write_err_of(e@, kwv) == Some(
                            SMLWriterError::AttributeHasEndKeywordName,
                        ));
                    }
                    return Err(SMLWriterError::AttributeHasEndKeywordName);
                }
                ai = ai + 1;
            }
        },
        None => {},
    }
    proof {
        assert(match kwv {
            Some(k) => e@.name != k && !(exists|i: int|
                0 <= i < e@.attributes.len() && e@.attributes[i].name == k),
            None => true,
        });
    }
    if e.attributes.len() > 0 {
        push_char_to(buf, '\n');
        push_str_to(buf, child_pad.as_str());

        let mut rows: Vec<Vec<Option<String>>> = Vec::new();
        let mut ri: usize = 0;
        while ri < e.attributes.len()
            invariant
                ri <= e.attributes@.len(),
                rows@.len() == ri,
                forall|t: int|
                    0 <= t < ri ==> #[trigger] rows@[t].deep_view() == attr_rows_of(
                        e@.attributes,
                    )[t],
            decreases e.attributes@.len() - ri,
        {
            let a = &e.attributes[ri];
            let mut row: Vec<Option<String>> = Vec::new();
            row.push(Some(a.name.clone()));
            let mut vi: usize = 0;
            while vi < a.values.len()
                invariant
                    vi <= a.values@.len(),
                    row@.len() == vi + 1,
                    row@[0].deep_view() == Some(a@.name),
                    forall|t: int|
                        1 <= t <= vi ==> #[trigger] row@[t].deep_view() == a@.values[t - 1],
                decreases a.values@.len() - vi,
            {
                row.push(clone_field(&a.values[vi]));
                proof {
                    lemma_vec_deep_view_pointwise(&a.values);
                }
                vi = vi + 1;
            }
            proof {
                lemma_vec_deep_view_pointwise(&row);
                assert(row.deep_view() =~= seq![Some(a@.name)] + a@.values);
            }
            rows.push(row);
            ri = ri + 1;
        }
        proof {
            lemma_vec_deep_view_pointwise(&rows);
            assert(rows.deep_view() =~= attr_rows_of(e@.attributes));
        }
        let block: Vec<char> = match align {
            ColumnAlignment::Packed => wsv_render_packed(&rows),
            ColumnAlignment::Left => wsv_render_aligned(&rows, false),
            ColumnAlignment::Right => wsv_render_aligned(&rows, true),
        };
        proof {
            assert(block@ == attr_block(e@.attributes, align));
        }
        let ghost attr_base = buf@;
        let mut bi: usize = 0;
        while bi < block.len()
            invariant
                bi <= block@.len(),
                block@ == attr_block(e@.attributes, align),
                child_pad@ == ind(indent@, depth@ + 1),
                buf@ == attr_base + pad_newlines(block@.subrange(0, bi as int), child_pad@),
            decreases block@.len() - bi,
        {
            let c = block[bi];
            push_char_to(buf, c);
            if c == '\n' {
                push_str_to(buf, child_pad.as_str());
            }
            proof {
                assert(block@.subrange(0, bi as int + 1) =~= block@.subrange(0, bi as int).push(
                    block@[bi as int],
                ));
                lemma_pad_newlines_push(block@.subrange(0, bi as int), block@[bi as int],
                    child_pad@);
                assert(buf@ =~= attr_base + pad_newlines(
                    block@.subrange(0, bi as int + 1),
                    child_pad@,
                ));
            }
            bi = bi + 1;
        }
        proof {
            assert(block@.subrange(0, block@.len() as int) =~= block@);
            assert(buf@ =~= base + ind(indent@, depth@) + e@.name + (seq!['\n'] + ind(
                indent@,
                depth@ + 1,
            ) + pad_newlines(attr_block(e@.attributes, align), ind(indent@, depth@ + 1))));
        }
    }
    let ghost mid = buf@;

    let mut grand_pad = child_pad.clone();
    push_str_to(&mut grand_pad, indent.as_str());
    proof {
        assert(grand_pad@ =~= ind(indent@, depth@ + 2));
    }
    let mut ci: usize = 0;
    while ci < e.children.len()
        invariant
            ci <= e.children@.len(),
            pad@ == ind(indent@, depth@),
            child_pad@ == ind(indent@, depth@ + 1),
            grand_pad@ == ind(indent@, depth@ + 2),
            kwv == end_kw.deep_view(),
            buf@ == mid + write_children_text(
                e@.children.subrange(0, ci as int),
                depth@ + 1,
                align,
                indent@,
                kwv,
            ),
            forall|j: int| 0 <= j < ci ==> write_err_of(#[trigger] e@.children[j], kwv) is None,
            match kwv {
                Some(k) => e@.name != k && !(exists|i: int|
                    0 <= i < e@.attributes.len() && e@.attributes[i].name == k),
                None => true,
            },
        decreases e.children@.len() - ci,
    {
        push_char_to(buf, '\n');
        let res = write_node(
            &e.children[ci],
            child_pad,
            &grand_pad,
            Ghost(depth@ + 1),
            align,
            indent,
            end_kw,
            buf,
        );
        match res {
            Ok(_) => {},
            Err(er) => {
                proof {
                    lemma_err_children_first(e@.children, kwv, ci as int, er);
                }
                return Err(er);
            },
        }
        proof {
            assert(e@.children.subrange(0, ci as int + 1) =~= e@.children.subrange(
                0,
                ci as int,
            ).push(e@.children[ci as int]));
            lemma_children_text_push(
                e@.children.subrange(0, ci as int),
                e@.children[ci as int],
                depth@ + 1,
                align,
                indent@,
                kwv,
            );
            assert(buf@ =~= mid + write_children_text(
                e@.children.subrange(0, ci as int + 1),
                depth@ + 1,
                align,
                indent@,
                kwv,
            ));
        }
        ci = ci + 1;
    }
    proof {
        assert(e@.children.subrange(0, e@.children.len() as int) =~= e@.children);
        lemma_err_children_all_ok(e@.children, kwv);
    }

    push_char_to(buf, '\n');
    push_str_to(buf, pad.as_str());
    match end_kw {
        None => {
            push_char_to(buf, '-');
            proof {
                assert(buf@ =~= mid + write_children_text(
                    e@.children,
                    depth@ + 1,
                    align,
                    indent@,
                    kwv,
                ) + seq!['\n'] + ind(indent@, depth@) + closer_token(kwv));
            }
        },
        Some(k) => {
            push_str_to(buf, k.as_str());
            proof {
                assert(buf@ =~= mid + write_children_text(
                    e@.children,
                    depth@ + 1,
                    align,
                    indent@,
                    kwv,
                ) + seq!['\n'] + ind(indent@, depth@) + closer_token(kwv));
            }
        },
    }
    proof {
        if e@.attributes.len() == 0 {
            assert(mid =~= base + ind(indent@, depth@) + e@.name + Seq::<char>::empty());
        }
        assert(buf@ =~= base + write_elem_text(e@, depth@, align, indent@, kwv));
    }
    Ok(())
}

} // verus!
