//! The text of exported journals: each entry becomes a bold heading with its
//! date and time and a paragraph with its tag and text.

use vstd::prelude::*;
use crate::journal::{RawEntry, EntryModel};
use crate::text::{chars_of, string_of, append_str, str_eq};

verus! {

/// The heading of an entry in a PDF export.
pub open spec fn pdf_heading_spec(e: EntryModel) -> Seq<char> {
    e.date + " | "@ + e.time
}

/// The paragraph of an entry in a PDF export.
pub open spec fn pdf_paragraph_spec(e: EntryModel) -> Seq<char> {
    "[#"@ + e.tag + "] "@ + e.text
}

/// The bold run that opens an entry in a Word export.
pub open spec fn docx_date_run_spec(e: EntryModel) -> Seq<char> {
    e.date + " - "@ + e.time + " "@
}

/// The italic run with an entry's tag in a Word export.
pub open spec fn docx_tag_run_spec(e: EntryModel) -> Seq<char> {
    "[#"@ + e.tag + "] "@
}

/// An entry's PDF heading is its whole date, ` | ` and its whole time.
pub proof fn law_pdf_heading_holds_date_and_time(e: EntryModel)
    ensures
        pdf_heading_spec(e) == e.date + seq![' ', '|', ' '] + e.time,
        pdf_heading_spec(e).len() == e.date.len() + e.time.len() + 3,
        pdf_heading_spec(e).take(e.date.len() as int) == e.date,
        pdf_heading_spec(e).skip(e.date.len() as int + 3) == e.time,
{
    reveal_strlit(" | ");
    let h = pdf_heading_spec(e);
    assert(h =~= e.date + seq![' ', '|', ' '] + e.time);
    assert(h.take(e.date.len() as int) =~= e.date);
    assert(h.skip(e.date.len() as int + 3) =~= e.time);
}

/// An entry's PDF paragraph is `[#`, its whole tag, `] ` and its whole
/// text: neither is cut, and the text ends the paragraph.
pub proof fn law_pdf_paragraph_holds_tag_and_text(e: EntryModel)
    ensures
        pdf_paragraph_spec(e) == seq!['[', '#'] + e.tag + seq![']', ' '] + e.text,
        pdf_paragraph_spec(e).len() == e.tag.len() + e.text.len() + 4,
        pdf_paragraph_spec(e).subrange(2, e.tag.len() as int + 2) == e.tag,
        pdf_paragraph_spec(e).skip(e.tag.len() as int + 4) == e.text,
{
    reveal_strlit("[#");
    reveal_strlit("] ");
    let p = pdf_paragraph_spec(e);
    assert(p =~= seq!['[', '#'] + e.tag + seq![']', ' '] + e.text);
    assert(p.subrange(2, e.tag.len() as int + 2) =~= e.tag);
    assert(p.skip(e.tag.len() as int + 4) =~= e.text);
}

/// An entry's Word runs: the bold run is its whole date, ` - `, its whole
/// time and a space; the italic run is `[#`, its whole tag and `] `.
pub proof fn law_docx_runs_hold_entry(e: EntryModel)
    ensures
        docx_date_run_spec(e) == e.date + seq![' ', '-', ' '] + e.time + seq![' '],
        docx_date_run_spec(e).len() == e.date.len() + e.time.len() + 4,
        docx_tag_run_spec(e) == seq!['[', '#'] + e.tag + seq![']', ' '],
        docx_tag_run_spec(e).len() == e.tag.len() + 4,
{
    reveal_strlit(" - ");
    reveal_strlit(" ");
    reveal_strlit("[#");
    reveal_strlit("] ");
    assert(docx_date_run_spec(e) =~= e.date + seq![' ', '-', ' '] + e.time + seq![' ']);
    assert(docx_tag_run_spec(e) =~= seq!['[', '#'] + e.tag + seq![']', ' ']);
}

/// The heading of an entry in a PDF export: `date | time`.
pub fn pdf_heading(e: &RawEntry) -> (r: String)
    ensures
        r@ == pdf_heading_spec(e@),
{
    let mut v = chars_of(e.date.as_str());
    append_str(&mut v, " | ");
    append_str(&mut v, e.time.as_str());
    string_of(&v)
}

/// The paragraph of an entry in a PDF export: `[#tag] text`.
pub fn pdf_paragraph(e: &RawEntry) -> (r: String)
    ensures
        r@ == pdf_paragraph_spec(e@),
{
    let mut v = chars_of("[#");
    append_str(&mut v, e.tag.as_str());
    append_str(&mut v, "] ");
    append_str(&mut v, e.text.as_str());
    string_of(&v)
}

/// The bold run that opens an entry in a Word export: `date - time `.
pub fn docx_date_run(e: &RawEntry) -> (r: String)
    ensures
        r@ == docx_date_run_spec(e@),
{
    let mut v = chars_of(e.date.as_str());
    append_str(&mut v, " - ");
    append_str(&mut v, e.time.as_str());
    append_str(&mut v, " ");
    string_of(&v)
}

/// The italic run with an entry's tag in a Word export: `[#tag] `.
pub fn docx_tag_run(e: &RawEntry) -> (r: String)
    ensures
        r@ == docx_tag_run_spec(e@),
{
    let mut v = chars_of("[#");
    append_str(&mut v, e.tag.as_str());
    append_str(&mut v, "] ");
    string_of(&v)
}

/// The text of one entry in a PDF export.
pub struct PdfEntryText {
    pub heading: String,
    pub paragraph: String,
}

/// The runs of one entry's paragraph in a Word export.
pub struct DocxEntryRuns {
    pub date_run: String,
    pub tag_run: String,
    pub text_run: String,
}

/// The text of every entry of a PDF export, in the order of the entries.
pub fn pdf_export_text(entries: &Vec<RawEntry>) -> (r: Vec<PdfEntryText>)
    ensures
        r.len() == entries.len(),
        forall|i: int|
            0 <= i < r.len() ==> #[trigger] r@[i].heading@ == pdf_heading_spec(entries@[i]@)
                && r@[i].paragraph@ == pdf_paragraph_spec(entries@[i]@),
{
    let mut r: Vec<PdfEntryText> = Vec::new();
    let mut i: usize = 0;
    while i < entries.len()
        invariant
            i <= entries.len(),
            r.len() == i,
            forall|k: int|
                0 <= k < i ==> #[trigger] r@[k].heading@ == pdf_heading_spec(entries@[k]@)
                    && r@[k].paragraph@ == pdf_paragraph_spec(entries@[k]@),
        decreases entries.len() - i,
    {
        r.push(PdfEntryText { heading: pdf_heading(&entries[i]), paragraph: pdf_paragraph(&entries[i]) });
        i += 1;
    }
    r
}

/// The runs of every entry of a Word export, in the order of the entries:
/// the bold date run, the italic tag run, and the text.
pub fn docx_export_runs(entries: &Vec<RawEntry>) -> (r: Vec<DocxEntryRuns>)
    ensures
        r.len() == entries.len(),
        forall|i: int|
            0 <= i < r.len() ==> #[trigger] r@[i].date_run@ == docx_date_run_spec(entries@[i]@)
                && r@[i].tag_run@ == docx_tag_run_spec(entries@[i]@) && r@[i].text_run@
                == entries@[i].text@,
{
    let mut r: Vec<DocxEntryRuns> = Vec::new();
    let mut i: usize = 0;
    while i < entries.len()
        invariant
            i <= entries.len(),
            r.len() == i,
            forall|k: int|
                0 <= k < i ==> #[trigger] r@[k].date_run@ == docx_date_run_spec(entries@[k]@)
                    && r@[k].tag_run@ == docx_tag_run_spec(entries@[k]@) && r@[k].text_run@
                    == entries@[k].text@,
        decreases entries.len() - i,
    {
        r.push(
            DocxEntryRuns {
                date_run: docx_date_run(&entries[i]),
                tag_run: docx_tag_run(&entries[i]),
                text_run: entries[i].text.clone(),
            },
        );
        i += 1;
    }
    r
}

/// The kinds of export file.
pub enum ExportFormat {
    Pdf,
    Docx,
}

/// The kind of export asked for: PDF for `pdf`, a Word document for anything
/// else.
pub fn export_format(format: &str) -> (r: ExportFormat)
    ensures
        (r is Pdf) == (format@ == "pdf"@),
{
    if str_eq(format, "pdf") {
        ExportFormat::Pdf
    } else {
        ExportFormat::Docx
    }
}

/// The file name suggested for an export in the given format.
pub fn export_file_name(format: &str) -> (r: String)
    ensures
        r@ == "My_EchoJournal."@ + format@,
{
    crate::text::concat2("My_EchoJournal.", format)
}

} // verus!
