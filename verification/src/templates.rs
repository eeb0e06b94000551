//! Built-in card layout templates: named descriptions of how the 80
//! columns of a card are conventionally divided for a language or
//! workload. Templates carry labels only; they impose no validation.

use vstd::prelude::*;
use crate::deck::{CardRecord, CardType, ColumnRange, DeckError, EncodingKind};
use crate::encoding::{fold_upper, fold_char};
use crate::text::{pad_to, str_chars};
use vstd::string::StrSliceExecFns;

verus! {

/// One labelled column range of a template.
#[derive(Debug, Clone)]
pub struct TemplateColumn {
    pub range: ColumnRange,
    pub label: &'static str,
}

/// A named punch-card layout: labelled column ranges and the card type
/// its cards default to.
#[derive(Debug, Clone)]
pub struct Template {
    pub name: &'static str,
    pub description: &'static str,
    pub columns: Vec<TemplateColumn>,
    pub default_type: CardType,
}

/// The registered shape of the fixed-format scientific-language layout.
pub open spec fn is_fortran_template(t: Template) -> bool {
    &&& t.name@ == "fortran"@
    &&& t.default_type == CardType::Code
    &&& t.columns@.len() == 4
    &&& t.columns@[0].range == (ColumnRange { start: 1, end: 5 })
    &&& t.columns@[1].range == (ColumnRange { start: 6, end: 6 })
    &&& t.columns@[2].range == (ColumnRange { start: 7, end: 72 })
    &&& t.columns@[3].range == (ColumnRange { start: 73, end: 80 })
}

/// The registered shape of the columnar business-language layout.
pub open spec fn is_cobol_template(t: Template) -> bool {
    &&& t.name@ == "cobol"@
    &&& t.default_type == CardType::Code
    &&& t.columns@.len() == 5
    &&& t.columns@[0].range == (ColumnRange { start: 1, end: 6 })
    &&& t.columns@[1].range == (ColumnRange { start: 7, end: 7 })
    &&& t.columns@[2].range == (ColumnRange { start: 8, end: 11 })
    &&& t.columns@[3].range == (ColumnRange { start: 12, end: 72 })
    &&& t.columns@[4].range == (ColumnRange { start: 73, end: 80 })
}

/// The registered shape of the job-control card layout.
pub open spec fn is_jcl_template(t: Template) -> bool {
    &&& t.name@ == "jcl"@
    &&& t.default_type == CardType::Jcl
    &&& t.columns@.len() == 6
    &&& t.columns@[0].range == (ColumnRange { start: 1, end: 2 })
    &&& t.columns@[1].range == (ColumnRange { start: 3, end: 10 })
    &&& t.columns@[2].range == (ColumnRange { start: 11, end: 15 })
    &&& t.columns@[3].range == (ColumnRange { start: 16, end: 71 })
    &&& t.columns@[4].range == (ColumnRange { start: 72, end: 72 })
    &&& t.columns@[5].range == (ColumnRange { start: 73, end: 80 })
}

/// The registered shape of the assembler layout.
pub open spec fn is_assembler_template(t: Template) -> bool {
    &&& t.name@ == "assembler"@
    &&& t.default_type == CardType::Code
    &&& t.columns@.len() == 6
    &&& t.columns@[0].range == (ColumnRange { start: 1, end: 8 })
    &&& t.columns@[1].range == (ColumnRange { start: 9, end: 9 })
    &&& t.columns@[2].range == (ColumnRange { start: 10, end: 15 })
    &&& t.columns@[3].range == (ColumnRange { start: 16, end: 71 })
    &&& t.columns@[4].range == (ColumnRange { start: 72, end: 72 })
    &&& t.columns@[5].range == (ColumnRange { start: 73, end: 80 })
}

/// Two character sequences that agree up to ASCII case.
pub open spec fn eq_ignore_case(a: Seq<char>, b: Seq<char>) -> bool {
    a.len() == b.len() && forall|i: int| 0 <= i < a.len() ==> fold_upper(#[trigger] a[i])
        == fold_upper(b[i])
}

impl Template {
    /// Apply the template to raw text: exactly a card built by
    /// [`CardRecord::from_text`] with the template's default type.
    pub fn apply(&self, text: &str) -> (r: Result<CardRecord, DeckError>)
        ensures
            r is Ok <==> text@.len() <= 80,
            r matches Ok(c) ==> {
                &&& c@.text == Some(pad_to(text@, 80))
                &&& c@.punches is None
                &&& c@.encoding == EncodingKind::Hollerith
                &&& c@.seq is None
                &&& c@.card_type == self.default_type
                &&& c@.protected_cols == Seq::<ColumnRange>::empty()
                &&& c@.meta.color is None
                &&& c@.meta.note is None
            },
            r matches Err(e) ==> e == (DeckError::TextTooLong { len: text@.len() as usize }),
    {
        CardRecord::from_text(text, EncodingKind::Hollerith, self.default_type)
    }
}

/// Push one labelled column onto a template's column list.
fn push_column(cols: &mut Vec<TemplateColumn>, start: usize, end: usize, label: &'static str)
    requires
        1 <= start <= end <= 80,
    ensures
        final (cols)@ == old(cols)@.push(TemplateColumn { range: ColumnRange { start, end }, label }),
{
    cols.push(TemplateColumn { range: ColumnRange { start, end }, label });
}

/// The fixed-format layout used by the oldest compiled language.
fn fortran_template() -> (r: Template)
    ensures
        is_fortran_template(r),
{
    let mut columns: Vec<TemplateColumn> = Vec::new();
    push_column(&mut columns, 1, 5, "Statement label / comment (C in col 1)");
    push_column(&mut columns, 6, 6, "Continuation (non-blank for continuation)");
    push_column(&mut columns, 7, 72, "Source statement");
    push_column(&mut columns, 73, 80, "Sequence number");
    Template {
        name: "fortran",
        description: "FORTRAN IV layout with fixed-format areas.",
        columns,
        default_type: CardType::Code,
    }
}

/// The columnar layout of business-oriented sources.
fn cobol_template() -> (r: Template)
    ensures
        is_cobol_template(r),
{
    let mut columns: Vec<TemplateColumn> = Vec::new();
    push_column(&mut columns, 1, 6, "Sequence number / identification");
    push_column(&mut columns, 7, 7, "Indicator (e.g., * comment)");
    push_column(&mut columns, 8, 11, "Area A");
    push_column(&mut columns, 12, 72, "Area B");
    push_column(&mut columns, 73, 80, "Identification / sequence");
    Template {
        name: "cobol",
        description: "COBOL columnar layout (sequence, area A/B, comments).",
        columns,
        default_type: CardType::Code,
    }
}

/// The job-control card layout.
fn jcl_template() -> (r: Template)
    ensures
        is_jcl_template(r),
{
    let mut columns: Vec<TemplateColumn> = Vec::new();
    push_column(&mut columns, 1, 2, "Job card '//'");
    push_column(&mut columns, 3, 10, "Job/step name");
    push_column(&mut columns, 11, 15, "Operation (JOB/EXEC/DD)");
    push_column(&mut columns, 16, 71, "Parameters");
    push_column(&mut columns, 72, 72, "Continuation indicator");
    push_column(&mut columns, 73, 80, "Sequence number");
    Template {
        name: "jcl",
        description: "IBM JCL job card layout.",
        columns,
        default_type: CardType::Jcl,
    }
}

/// The assembler layout.
fn assembler_template() -> (r: Template)
    ensures
        is_assembler_template(r),
{
    let mut columns: Vec<TemplateColumn> = Vec::new();
    push_column(&mut columns, 1, 8, "Label");
    push_column(&mut columns, 9, 9, "Continuation");
    push_column(&mut columns, 10, 15, "Operation");
    push_column(&mut columns, 16, 71, "Operands / comments");
    push_column(&mut columns, 72, 72, "Continuation");
    push_column(&mut columns, 73, 80, "Sequence number");
    Template {
        name: "assembler",
        description: "IBM System/360 assembler (H) columns.",
        columns,
        default_type: CardType::Code,
    }
}

/// The registry of built-in templates.
pub struct TemplateRegistry;

impl TemplateRegistry {
    /// All built-in templates, in a fixed order.
    pub fn list() -> (r: Vec<Template>)
        ensures
            r@.len() == 4,
            is_fortran_template(r@[0]),
            is_cobol_template(r@[1]),
            is_jcl_template(r@[2]),
            is_assembler_template(r@[3]),
    {
        let mut r: Vec<Template> = Vec::new();
        r.push(fortran_template());
        r.push(cobol_template());
        r.push(jcl_template());
        r.push(assembler_template());
        r
    }

    /// Look a template up by name, ignoring ASCII case; `None` when no
    /// built-in template carries the name.
    pub fn get(name: &str) -> (r: Option<Template>)
        ensures
            r matches Some(t) ==> {
                ||| eq_ignore_case(name@, "fortran"@) && is_fortran_template(t)
                ||| eq_ignore_case(name@, "cobol"@) && is_cobol_template(t)
                ||| eq_ignore_case(name@, "jcl"@) && is_jcl_template(t)
                ||| eq_ignore_case(name@, "assembler"@) && is_assembler_template(t)
            },
            r is Some <==> eq_ignore_case(name@, "fortran"@) || eq_ignore_case(name@, "cobol"@)
                || eq_ignore_case(name@, "jcl"@) || eq_ignore_case(name@, "assembler"@),
    {
        let chars = str_chars(name);
        if eq_ignore_case_exec(&chars, "fortran") {
            Some(fortran_template())
        } else if eq_ignore_case_exec(&chars, "cobol") {
            Some(cobol_template())
        } else if eq_ignore_case_exec(&chars, "jcl") {
            Some(jcl_template())
        } else if eq_ignore_case_exec(&chars, "assembler") {
            Some(assembler_template())
        } else {
            None
        }
    }
}

/// Case-insensitive comparison of characters against a fixed name.
#[verifier::loop_isolation(false)]
fn eq_ignore_case_exec(a: &Vec<char>, b: &str) -> (r: bool)
    ensures
        r == eq_ignore_case(a@, b@),
{
    let blen = b.unicode_len();
    if a.len() != blen {
        return false;
    }
    let mut i: usize = 0;
    while i < blen
        invariant
            i <= blen,
            blen == b@.len(),
            a@.len() == blen,
            forall|k: int| 0 <= k < i ==> fold_upper(#[trigger] a@[k]) == fold_upper(b@[k]),
        decreases blen - i,
    {
        let ca = fold_char(a[i]);
        let cb = fold_char(b.get_char(i));
        if ca != cb {
            assert(fold_upper(a@[i as int]) != fold_upper(b@[i as int]));
            return false;
        }
        i += 1;
    }
    true
}

} // verus!
