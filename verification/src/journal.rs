//! The journal format: Markdown files in which `### ` opens a day, the first
//! line of a day is its date, and each entry is a line `- **time**: text #tag`.

use vstd::prelude::*;
use crate::sorting::{stable_sort, lemma_insert_at, total_preorder, sorted_by,
    lemma_stable_sort_sorted, lemma_stable_sort_permutes, lemma_stable_sort_stable, equivalent};
use crate::text::{chars_of, string_of, trim, trim_chars, split_on, split_chars, replace,
    replace_chars, starts_with, starts_with_chars, is_last_match, find_last, lines, lines_chars,
    slice_chars, lex_le, lex_le_chars, lemma_lex_le_total, lemma_lex_le_transitive,
    lemma_lex_le_antisymmetric, lemma_lex_le_reflexive, matches_at, is_first_match, join_lines,
    is_plain_line, lemma_lines_of_join_lines, lemma_trim_nonempty, lemma_trimmed_last,
    lemma_trim_idempotent, lemma_split_step, lemma_split_none};

verus! {

/// One journal entry.
pub struct RawEntry {
    pub date: String,
    pub time: String,
    pub text: String,
    pub tag: String,
}

/// What an entry holds.
pub struct EntryModel {
    pub date: Seq<char>,
    pub time: Seq<char>,
    pub text: Seq<char>,
    pub tag: Seq<char>,
}

impl View for RawEntry {
    type V = EntryModel;

    open spec fn view(&self) -> EntryModel {
        EntryModel { date: self.date@, time: self.time@, text: self.text@, tag: self.tag@ }
    }
}

impl RawEntry {
    /// A copy of the entry.
    pub fn duplicate(&self) -> (r: RawEntry)
        ensures
            r@ == self@,
    {
        RawEntry {
            date: self.date.clone(),
            time: self.time.clone(),
            text: self.text.clone(),
            tag: self.tag.clone(),
        }
    }
}

/// The views of a list of entries.
pub open spec fn entries_view(v: Seq<RawEntry>) -> Seq<EntryModel> {
    v.map_values(|e: RawEntry| e@)
}

/// `### `, which opens a day.
pub open spec fn day_marker() -> Seq<char> {
    seq!['#', '#', '#', ' ']
}

/// `- **`, which opens an entry line.
pub open spec fn entry_marker() -> Seq<char> {
    seq!['-', ' ', '*', '*']
}

/// `**: `, which ends the time of an entry.
pub open spec fn time_end_marker() -> Seq<char> {
    seq!['*', '*', ':', ' ']
}

/// ` #`, which opens the tag of an entry.
pub open spec fn tag_marker() -> Seq<char> {
    seq![' ', '#']
}

/// The entry a line holds, if it is an entry line, under a day dated `date`.
/// The text runs from the time marker up to the next one (or the line's end),
/// and the tag is what follows the last ` #` in it; without one the entry is
/// `Uncategorized`.
pub open spec fn parse_entry_line(date: Seq<char>, line: Seq<char>) -> Option<EntryModel> {
    if !starts_with(line, entry_marker()) {
        None
    } else {
        let parts = split_on(line, time_end_marker());
        if parts.len() < 2 {
            None
        } else {
            let time = trim(replace(parts[0], entry_marker(), Seq::empty()));
            let rest = parts[1];
            if exists|j: int| is_last_match(rest, tag_marker(), j) {
                let j = choose|j: int| is_last_match(rest, tag_marker(), j);
                Some(EntryModel { date, time, text: trim(rest.take(j)), tag: trim(rest.skip(j + 2)) })
            } else {
                Some(EntryModel { date, time, text: trim(rest), tag: "Uncategorized"@ })
            }
        }
    }
}

/// The entries among the lines of a day dated `date`.
pub open spec fn entries_of_lines(date: Seq<char>, ls: Seq<Seq<char>>) -> Seq<EntryModel> {
    ls.filter_map(|l: Seq<char>| parse_entry_line(date, l))
}

/// The entries of one day block: its first line, trimmed, is the date.
pub open spec fn entries_of_block(block: Seq<char>) -> Seq<EntryModel> {
    let ls = lines(block);
    if trim(block).len() == 0 || ls.len() == 0 {
        Seq::empty()
    } else {
        entries_of_lines(trim(ls[0]), ls.skip(1))
    }
}

/// The entries of the day blocks, in order.
pub open spec fn entries_of_blocks(blocks: Seq<Seq<char>>) -> Seq<EntryModel>
    decreases blocks.len(),
{
    if blocks.len() == 0 {
        Seq::empty()
    } else {
        entries_of_blocks(blocks.drop_last()) + entries_of_block(blocks.last())
    }
}

/// The entries of one journal file, in the order they are written.
pub open spec fn parse_journal(content: Seq<char>) -> Seq<EntryModel> {
    entries_of_blocks(split_on(content, day_marker()))
}


/// Reads the entry on one line, if the line is an entry line.
pub fn parse_entry_line_exec(date: &Vec<char>, line: &Vec<char>) -> (r: Option<RawEntry>)
    ensures
        match r {
            Some(e) => parse_entry_line(date@, line@) == Some(e@),
            None => parse_entry_line(date@, line@) is None,
        },
{
    let entry_mark: Vec<char> = vec!['-', ' ', '*', '*'];
    let time_mark: Vec<char> = vec!['*', '*', ':', ' '];
    let tag_mark: Vec<char> = vec![' ', '#'];
    assert(entry_mark@ =~= entry_marker());
    assert(time_mark@ =~= time_end_marker());
    assert(tag_mark@ =~= tag_marker());
    if !starts_with_chars(line, &entry_mark) {
        return None;
    }
    let parts = split_chars(line, &time_mark);
    let ghost ps = parts@.map_values(|v: Vec<char>| v@);
    if parts.len() < 2 {
        return None;
    }
    assert(ps[0] == parts@[0]@ && ps[1] == parts@[1]@);
    let empty: Vec<char> = Vec::new();
    let stripped = replace_chars(&parts[0], &entry_mark, &empty);
    let time = trim_chars(&stripped);
    let rest = &parts[1];
    match find_last(rest, &tag_mark) {
        Some(j) => {
            let head = slice_chars(rest, 0, j);
            let tail = slice_chars(rest, j + 2, rest.len());
            let text = trim_chars(&head);
            let tag = trim_chars(&tail);
            proof {
                let k = choose|k: int| is_last_match(rest@, tag_marker(), k);
                crate::text::lemma_last_match_unique(rest@, tag_marker(), j as int, k);
                assert(head@ =~= rest@.take(j as int));
                assert(tail@ =~= rest@.skip(j + 2));
            }
            Some(RawEntry {
                date: string_of(date),
                time: string_of(&time),
                text: string_of(&text),
                tag: string_of(&tag),
            })
        },
        None => {
            let text = trim_chars(rest);
            Some(RawEntry {
                date: string_of(date),
                time: string_of(&time),
                text: string_of(&text),
                tag: "Uncategorized".to_owned(),
            })
        },
    }
}

/// Reads the entries of one day block.
pub fn parse_block_exec(block: &Vec<char>) -> (r: Vec<RawEntry>)
    ensures
        entries_view(r@) == entries_of_block(block@),
{
    let mut r: Vec<RawEntry> = Vec::new();
    let trimmed = trim_chars(block);
    if trimmed.len() == 0 {
        assert(entries_view(r@) =~= Seq::<EntryModel>::empty());
        return r;
    }
    let ls = lines_chars(block);
    let ghost lv = ls@.map_values(|v: Vec<char>| v@);
    if ls.len() == 0 {
        assert(entries_view(r@) =~= Seq::<EntryModel>::empty());
        return r;
    }
    let date = trim_chars(&ls[0]);
    assert(lv[0] == ls@[0]@);
    let ghost f = |l: Seq<char>| parse_entry_line(date@, l);
    let mut i: usize = 1;
    assert(lv.skip(1).take(0) =~= Seq::<Seq<char>>::empty());
    assert(entries_view(r@) =~= Seq::<EntryModel>::empty());
    while i < ls.len()
        invariant
            1 <= i <= ls.len(),
            lv == ls@.map_values(|v: Vec<char>| v@),
            f == (|l: Seq<char>| parse_entry_line(date@, l)),
            entries_view(r@) == lv.skip(1).take(i - 1).filter_map(f),
        decreases ls.len() - i,
    {
        let ghost before = r@;
        let e = parse_entry_line_exec(&date, &ls[i]);
        proof {
            let t = lv.skip(1).take(i as int);
            assert(t.drop_last() =~= lv.skip(1).take(i - 1));
            assert(t.last() == ls@[i as int]@);
        }
        match e {
            Some(e) => {
                r.push(e);
                assert(entries_view(r@) =~= entries_view(before).push(e@));
            },
            None => {},
        }
        i += 1;
    }
    assert(lv.skip(1).take(ls.len() - 1) =~= lv.skip(1));
    r
}

proof fn lemma_entries_of_blocks_push(bs: Seq<Seq<char>>, b: Seq<char>)
    ensures
        entries_of_blocks(bs.push(b)) == entries_of_blocks(bs) + entries_of_block(b),
{
    assert(bs.push(b).drop_last() =~= bs);
}

/// Reads the entries of one journal file, in the order they are written.
pub fn parse_journal_text(content: &str) -> (r: Vec<RawEntry>)
    ensures
        entries_view(r@) == parse_journal(content@),
{
    let chars = chars_of(content);
    let marker: Vec<char> = vec!['#', '#', '#', ' '];
    assert(marker@ =~= day_marker());
    let blocks = split_chars(&chars, &marker);
    let ghost bv = blocks@.map_values(|v: Vec<char>| v@);
    let mut r: Vec<RawEntry> = Vec::new();
    let mut i: usize = 0;
    assert(bv.take(0) =~= Seq::<Seq<char>>::empty());
    assert(entries_view(r@) =~= Seq::<EntryModel>::empty());
    while i < blocks.len()
        invariant
            i <= blocks.len(),
            bv == blocks@.map_values(|v: Vec<char>| v@),
            entries_view(r@) == entries_of_blocks(bv.take(i as int)),
        decreases blocks.len() - i,
    {
        let ghost before = r@;
        let mut es = parse_block_exec(&blocks[i]);
        let ghost esv = es@;
        r.append(&mut es);
        proof {
            assert(bv.take(i + 1) =~= bv.take(i as int).push(blocks@[i as int]@));
            lemma_entries_of_blocks_push(bv.take(i as int), blocks@[i as int]@);
            assert(entries_view(r@) =~= entries_view(before) + entries_view(esv));
        }
        i += 1;
    }
    assert(bv.take(blocks.len() as int) =~= bv);
    r
}


/// The order of entries: by date, then by time, both compared as strings.
pub open spec fn entry_le(a: EntryModel, b: EntryModel) -> bool {
    ||| lex_le(a.date, b.date) && !lex_le(b.date, a.date)
    ||| a.date == b.date && lex_le(a.time, b.time)
}

/// `entry_le` as a comparison to sort by.
pub open spec fn entry_order() -> spec_fn(EntryModel, EntryModel) -> bool {
    |a: EntryModel, b: EntryModel| entry_le(a, b)
}

/// The entry order is total and transitive.
pub proof fn lemma_entry_order_total_preorder()
    ensures
        total_preorder(entry_order()),
{
    let le = entry_order();
    assert forall|a: EntryModel, b: EntryModel| #[trigger] le(a, b) || le(b, a) by {
        lemma_lex_le_total(a.date, b.date);
        lemma_lex_le_total(a.time, b.time);
        if lex_le(a.date, b.date) && lex_le(b.date, a.date) {
            lemma_lex_le_antisymmetric(a.date, b.date);
        }
    }
    assert forall|a: EntryModel, b: EntryModel, c: EntryModel|
        #[trigger] le(a, b) && #[trigger] le(b, c) implies le(a, c) by {
        lemma_lex_le_reflexive(a.date);
        lemma_lex_le_reflexive(b.date);
        if lex_le(a.date, b.date) && lex_le(b.date, c.date) {
            lemma_lex_le_transitive(a.date, b.date, c.date);
        }
        if lex_le(c.date, a.date) && lex_le(a.date, b.date) {
            lemma_lex_le_transitive(c.date, a.date, b.date);
        }
        if lex_le(b.date, c.date) && lex_le(c.date, a.date) {
            lemma_lex_le_transitive(b.date, c.date, a.date);
        }
        if a.date == b.date && b.date == c.date {
            lemma_lex_le_transitive(a.time, b.time, c.time);
        }
        if lex_le(a.date, c.date) && lex_le(c.date, a.date) {
            lemma_lex_le_antisymmetric(a.date, c.date);
        }
    }
}

/// Entries are ordered by date, and entries of one date by time, each as a
/// whole string: on one date `a` may come before `b` exactly when its time is
/// at or before `b`'s, and on two dates exactly when its date is before
/// `b`'s.
pub proof fn law_entry_order_by_date_then_time(a: EntryModel, b: EntryModel)
    ensures
        a.date == b.date ==> (entry_le(a, b) <==> lex_le(a.time, b.time)),
        a.date != b.date ==> (entry_le(a, b) <==> lex_le(a.date, b.date)),
{
    if lex_le(a.date, b.date) && lex_le(b.date, a.date) {
        lemma_lex_le_antisymmetric(a.date, b.date);
    }
}

/// Whether `a` may come before `b` in the entry order.
pub fn entry_le_exec(a: &RawEntry, b: &RawEntry) -> (r: bool)
    ensures
        r == entry_le(a@, b@),
{
    let ad = chars_of(a.date.as_str());
    let bd = chars_of(b.date.as_str());
    let ab = lex_le_chars(&ad, &bd);
    let ba = lex_le_chars(&bd, &ad);
    if ab && !ba {
        true
    } else if ab && ba {
        proof {
            lemma_lex_le_antisymmetric(ad@, bd@);
        }
        let at = chars_of(a.time.as_str());
        let bt = chars_of(b.time.as_str());
        lex_le_chars(&at, &bt)
    } else {
        proof {
            lemma_lex_le_reflexive(ad@);
        }
        false
    }
}

/// Sorts entries by date, then time, keeping the order of entries that have
/// the same date and time (`slice::sort_by`, a stable sort).
pub fn sort_entries(v: &Vec<RawEntry>) -> (r: Vec<RawEntry>)
    ensures
        entries_view(r@) == stable_sort(entries_view(v@), entry_order()),
{
    let ghost vv = entries_view(v@);
    let mut res: Vec<RawEntry> = Vec::new();
    let mut i: usize = 0;
    assert(vv.take(0) =~= Seq::<EntryModel>::empty());
    assert(entries_view(res@) =~= Seq::<EntryModel>::empty());
    while i < v.len()
        invariant
            i <= v.len(),
            vv == entries_view(v@),
            entries_view(res@) == stable_sort(vv.take(i as int), entry_order()),
        decreases v.len() - i,
    {
        let x = v[i].duplicate();
        let mut j: usize = res.len();
        while j > 0 && !entry_le_exec(&res[j - 1], &x)
            invariant
                j <= res.len(),
                forall|k: int| j <= k < res.len() ==> !entry_le(#[trigger] res@[k]@, x@),
            decreases j,
        {
            j -= 1;
        }
        let ghost before = entries_view(res@);
        proof {
            assert forall|k: int| j <= k < before.len() implies !(entry_order())(#[trigger] before[k], x@) by {
                assert(before[k] == res@[k]@);
            }
            if j > 0 {
                assert(before[j - 1] == res@[j - 1]@);
            }
            lemma_insert_at(before, x@, entry_order(), j as int);
        }
        res.insert(j, x);
        proof {
            assert(entries_view(res@) =~= before.take(j as int).push(x@) + before.skip(j as int));
            let t = vv.take(i + 1);
            assert(t.drop_last() =~= vv.take(i as int));
            assert(t.last() == v@[i as int]@);
        }
        i += 1;
    }
    assert(vv.take(v.len() as int) =~= vv);
    res
}

/// The entries of several journal files, each read in order, one file after
/// the other.
pub open spec fn parse_files(contents: Seq<Seq<char>>) -> Seq<EntryModel>
    decreases contents.len(),
{
    if contents.len() == 0 {
        Seq::empty()
    } else {
        parse_files(contents.drop_last()) + parse_journal(contents.last())
    }
}

/// The views of a list of strings.
pub open spec fn strings_view(v: Seq<String>) -> Seq<Seq<char>> {
    v.map_values(|s: String| s@)
}

/// All entries of the given journal files, sorted by date and then time;
/// entries with the same date and time keep the order of the files and of
/// their lines.
pub fn collect_journal_entries(contents: &Vec<String>) -> (r: Vec<RawEntry>)
    ensures
        entries_view(r@) == stable_sort(parse_files(strings_view(contents@)), entry_order()),
{
    let ghost cv = strings_view(contents@);
    let mut all: Vec<RawEntry> = Vec::new();
    let mut i: usize = 0;
    assert(cv.take(0) =~= Seq::<Seq<char>>::empty());
    assert(entries_view(all@) =~= Seq::<EntryModel>::empty());
    while i < contents.len()
        invariant
            i <= contents.len(),
            cv == strings_view(contents@),
            entries_view(all@) == parse_files(cv.take(i as int)),
        decreases contents.len() - i,
    {
        let ghost before = all@;
        let mut es = parse_journal_text(contents[i].as_str());
        let ghost esv = es@;
        all.append(&mut es);
        proof {
            let t = cv.take(i + 1);
            assert(t.drop_last() =~= cv.take(i as int));
            assert(t.last() == contents@[i as int]@);
            assert(entries_view(all@) =~= entries_view(before) + entries_view(esv));
        }
        i += 1;
    }
    assert(cv.take(contents.len() as int) =~= cv);
    sort_entries(&all)
}

/// The file's extension is `md`, as `Path::extension` reads it: the part
/// after the last `.`, provided the name does not start with that `.`.
pub open spec fn is_markdown_name(name: Seq<char>) -> bool {
    exists|i: int| is_last_match(name, seq!['.'], i) && i > 0 && name.skip(i + 1) == seq!['m', 'd']
}

/// A file of the journal folder: its name and, for a journal file, its text
/// (the text of other files is never looked at).
pub struct JournalFile {
    pub name: String,
    pub content: String,
}

/// The names and texts of the files.
pub open spec fn files_view(v: Seq<JournalFile>) -> Seq<(Seq<char>, Seq<char>)> {
    v.map_values(|f: JournalFile| (f.name@, f.content@))
}

/// The texts of the journal files among `files` (those named `*.md`), in
/// order.
pub open spec fn journal_contents(files: Seq<(Seq<char>, Seq<char>)>) -> Seq<Seq<char>>
    decreases files.len(),
{
    if files.len() == 0 {
        Seq::empty()
    } else {
        journal_contents(files.drop_last()) + if is_markdown_name(files.last().0) {
            seq![files.last().1]
        } else {
            Seq::empty()
        }
    }
}

/// The entries of a journal folder: those of its `*.md` files, in the order
/// the files are listed, sorted by date and then time (a stable sort).
pub fn collect_journal_directory(files: &Vec<JournalFile>) -> (r: Vec<RawEntry>)
    ensures
        entries_view(r@) == stable_sort(
            parse_files(journal_contents(files_view(files@))),
            entry_order(),
        ),
{
    let ghost fv = files_view(files@);
    let mut contents: Vec<String> = Vec::new();
    let mut i: usize = 0;
    assert(fv.take(0) =~= Seq::<(Seq<char>, Seq<char>)>::empty());
    assert(strings_view(contents@) =~= Seq::<Seq<char>>::empty());
    while i < files.len()
        invariant
            i <= files.len(),
            fv == files_view(files@),
            strings_view(contents@) == journal_contents(fv.take(i as int)),
        decreases files.len() - i,
    {
        let ghost before = contents@;
        proof {
            let t = fv.take(i + 1);
            assert(t.drop_last() =~= fv.take(i as int));
            assert(t.last() == (files@[i as int].name@, files@[i as int].content@));
        }
        if is_markdown_file_name(files[i].name.as_str()) {
            contents.push(files[i].content.clone());
            assert(strings_view(contents@) =~= strings_view(before).push(files@[i as int].content@));
        } else {
            assert(strings_view(contents@) =~= strings_view(before) + Seq::<Seq<char>>::empty());
        }
        i += 1;
    }
    assert(fv.take(files.len() as int) =~= fv);
    collect_journal_entries(&contents)
}

/// A file that is not named `*.md` changes nothing, wherever it is listed:
/// it is neither read nor reported, so a folder gives the same entries with
/// or without it.
pub proof fn law_other_files_change_nothing(
    files: Seq<(Seq<char>, Seq<char>)>,
    i: int,
    other: (Seq<char>, Seq<char>),
)
    requires
        0 <= i <= files.len(),
        !is_markdown_name(other.0),
    ensures
        journal_contents(files.insert(i, other)) == journal_contents(files),
        stable_sort(parse_files(journal_contents(files.insert(i, other))), entry_order()) == stable_sort(
            parse_files(journal_contents(files)),
            entry_order(),
        ),
    decreases files.len(),
{
    let g = files.insert(i, other);
    if i == files.len() {
        assert(g.drop_last() =~= files);
        assert(g.last() == other);
        assert(journal_contents(g) =~= journal_contents(files));
    } else {
        law_other_files_change_nothing(files.drop_last(), i, other);
        assert(g.drop_last() =~= files.drop_last().insert(i, other));
        assert(g.last() == files.last());
    }
}

/// Whether a file of this name is a journal file.
pub fn is_markdown_file_name(name: &str) -> (b: bool)
    ensures
        b == is_markdown_name(name@),
{
    let cs = chars_of(name);
    let dot: Vec<char> = vec!['.'];
    assert(dot@ =~= seq!['.']);
    match find_last(&cs, &dot) {
        Some(i) => {
            proof {
                assert forall|k: int| is_last_match(cs@, seq!['.'], k) implies k == i by {
                    crate::text::lemma_last_match_unique(cs@, seq!['.'], i as int, k);
                }
            }
            if i == 0 {
                return false;
            }
            let n = cs.len();
            assert(matches_at(cs@, dot@, i as int));
            let ext = slice_chars(&cs, i + 1, n);
            assert(ext@ =~= cs@.skip(i + 1));
            let b = ext.len() == 2 && ext[0] == 'm' && ext[1] == 'd';
            proof {
                if b {
                    assert(ext@ =~= seq!['m', 'd']);
                }
            }
            b
        },
        None => false,
    }
}


/// The entries that `collect_journal_entries` returns are every entry of the
/// files, each as often as it is written, in date-then-time order; entries
/// with the same date and time stay in the order they were read.
pub proof fn law_collected_entries_are_sorted_permutation(contents: Seq<Seq<char>>, z: EntryModel)
    ensures
        sorted_by(stable_sort(parse_files(contents), entry_order()), entry_order()),
        stable_sort(parse_files(contents), entry_order()).to_multiset() == parse_files(contents).to_multiset(),
        stable_sort(parse_files(contents), entry_order()).filter(|y: EntryModel| equivalent(entry_order(), y, z))
            == parse_files(contents).filter(|y: EntryModel| equivalent(entry_order(), y, z)),
{
    lemma_entry_order_total_preorder();
    lemma_stable_sort_sorted(parse_files(contents), entry_order());
    lemma_stable_sort_permutes(parse_files(contents), entry_order());
    lemma_stable_sort_stable(parse_files(contents), entry_order(), z);
}


/// The line that writes an entry: `- **time**: text #tag`.
pub open spec fn entry_line(time: Seq<char>, text: Seq<char>, tag: Seq<char>) -> Seq<char> {
    entry_marker() + time + time_end_marker() + text + tag_marker() + tag
}

#[verifier::spinoff_prover]
proof fn lemma_entry_line_parts(time: Seq<char>, text: Seq<char>, tag: Seq<char>)
    requires
        forall|i: int| 0 <= i < time.len() ==> time[i] != '*',
        time.len() > 0 ==> time[0] != ':',
        !crate::text::contains(text + tag_marker() + tag, time_end_marker()),
    ensures
        split_on(entry_line(time, text, tag), time_end_marker()) == seq![
            entry_marker() + time,
            text + tag_marker() + tag,
        ],
{
    let em = entry_marker();
    let te = time_end_marker();
    let line = entry_line(time, text, tag);
    let m: int = 4 + time.len() as int;
    let r = text + tag_marker() + tag;
    assert(line =~= em + time + te + r);
    assert(line.subrange(m, m + 4) =~= te);
    assert forall|j: int| 0 <= j < m implies !matches_at(line, te, j) by {
        if matches_at(line, te, j) {
            assert(line.subrange(j, j + 4)[0] == line[j]);
            assert(line.subrange(j, j + 4)[1] == line[j + 1]);
            assert(line.subrange(j, j + 4)[2] == line[j + 2]);
            if j >= 4 {
                assert(line[j] == time[j - 4]);
            } else if j >= 2 {
                if time.len() > 0 {
                    assert(line[4] == time[0]);
                }
            }
        }
    }
    assert(is_first_match(line, te, m));
    crate::text::lemma_split_step(line, te, m);
    assert(line.skip(m + 4) =~= r);
    assert(line.take(m) =~= em + time);
    crate::text::lemma_split_none(r, te);
}

#[verifier::spinoff_prover]
proof fn lemma_entry_marker_removed(time: Seq<char>)
    requires
        forall|i: int| 0 <= i < time.len() ==> time[i] != '*',
    ensures
        replace(entry_marker() + time, entry_marker(), Seq::empty()) == time,
{
    let em = entry_marker();
    let p0 = em + time;
    assert(p0.subrange(0, 4) =~= em);
    assert(is_first_match(p0, em, 0));
    crate::text::lemma_split_step(p0, em, 0);
    assert(p0.skip(4) =~= time);
    assert(p0.take(0) =~= Seq::<char>::empty());
    assert forall|j: int| !matches_at(time, em, j) by {
        if matches_at(time, em, j) {
            assert(time.subrange(j, j + 4)[2] == time[j + 2]);
        }
    }
    crate::text::lemma_split_none(time, em);
    let ps = split_on(p0, em);
    assert(ps =~= seq![Seq::<char>::empty(), time]);
    assert(ps.drop_last() =~= seq![Seq::<char>::empty()]);
    assert(crate::text::join(ps.drop_last(), Seq::empty()) =~= Seq::<char>::empty());
    assert(crate::text::join(ps, Seq::empty()) =~= time);
}

#[verifier::spinoff_prover]
proof fn lemma_tag_marker_last(text: Seq<char>, tag: Seq<char>)
    requires
        !crate::text::contains(tag, tag_marker()),
    ensures
        is_last_match(text + tag_marker() + tag, tag_marker(), text.len() as int),
{
    let tm = tag_marker();
    let r = text + tm + tag;
    let k = text.len() as int;
    assert(r.subrange(k, k + 2) =~= tm);
    assert forall|j: int| k < j implies !matches_at(r, tm, j) by {
        if matches_at(r, tm, j) {
            assert(r.subrange(j, j + 2)[0] == r[j]);
            assert(r.subrange(j, j + 2)[1] == r[j + 1]);
            if j == k + 1 {
                assert(r[j] == '#');
            } else {
                let j2 = j - k - 2;
                assert(r[j] == tag[j2]);
                assert(r[j + 1] == tag[j2 + 1]);
                assert(tag.subrange(j2, j2 + 2) =~= tm);
                assert(matches_at(tag, tm, j2));
            }
        }
    }
}

/// Reading back a written entry line gives the entry: its time, text and tag
/// come back as written, provided each is trimmed, the time holds no `*` and
/// does not start with `:`, the text and tag hold no `**: `, and the tag
/// holds no ` #`.
#[verifier::spinoff_prover]
pub proof fn law_entry_line_round_trip(date: Seq<char>, time: Seq<char>, text: Seq<char>, tag: Seq<char>)
    requires
        forall|i: int| 0 <= i < time.len() ==> time[i] != '*',
        time.len() > 0 ==> time[0] != ':',
        trim(time) == time,
        trim(text) == text,
        trim(tag) == tag,
        !crate::text::contains(text + tag_marker() + tag, time_end_marker()),
        !crate::text::contains(tag, tag_marker()),
    ensures
        parse_entry_line(date, entry_line(time, text, tag)) == Some(
            EntryModel { date, time, text, tag },
        ),
{
    let line = entry_line(time, text, tag);
    let r = text + tag_marker() + tag;
    assert(line.subrange(0, 4) =~= entry_marker());
    lemma_entry_line_parts(time, text, tag);
    lemma_entry_marker_removed(time);
    lemma_tag_marker_last(text, tag);
    let k = text.len() as int;
    let j = choose|j: int| is_last_match(r, tag_marker(), j);
    crate::text::lemma_last_match_unique(r, tag_marker(), k, j);
    assert(r.take(k) =~= text);
    assert(r.skip(k + 2) =~= tag);
}


/// The lines that write a day's entries, one per entry.
pub open spec fn entry_lines(es: Seq<EntryModel>) -> Seq<Seq<char>> {
    es.map_values(|e: EntryModel| entry_line(e.time, e.text, e.tag))
}

/// A day as it is written: `### `, the date on its own line, then one line
/// per entry.
pub open spec fn day_text(date: Seq<char>, es: Seq<EntryModel>) -> Seq<char> {
    day_marker() + join_lines(seq![date] + entry_lines(es))
}

/// An entry whose line reads back as the entry (see
/// `law_entry_line_round_trip`), on a single line.
pub open spec fn is_writable_entry(e: EntryModel) -> bool {
    &&& forall|i: int| 0 <= i < e.time.len() ==> e.time[i] != '*' && e.time[i] != '\n'
    &&& e.time.len() > 0 ==> e.time[0] != ':'
    &&& forall|i: int| 0 <= i < e.text.len() ==> e.text[i] != '\n'
    &&& forall|i: int| 0 <= i < e.tag.len() ==> e.tag[i] != '\n'
    &&& trim(e.time) == e.time
    &&& trim(e.text) == e.text
    &&& trim(e.tag) == e.tag
    &&& !crate::text::contains(e.text + tag_marker() + e.tag, time_end_marker())
    &&& !crate::text::contains(e.tag, tag_marker())
}

proof fn lemma_entry_line_plain(e: EntryModel)
    requires
        is_writable_entry(e),
    ensures
        is_plain_line(entry_line(e.time, e.text, e.tag)),
        !crate::text::is_space(entry_line(e.time, e.text, e.tag).last()),
{
    let l = entry_line(e.time, e.text, e.tag);
    let a = entry_marker() + e.time + time_end_marker() + e.text;
    assert(l == a + tag_marker() + e.tag);
    assert forall|i: int| 0 <= i < l.len() implies l[i] != '\n' by {
        if i < 4 {
        } else if i < 4 + e.time.len() {
            assert(l[i] == e.time[i - 4]);
        } else if i < 8 + e.time.len() {
        } else if i < a.len() {
            assert(l[i] == e.text[i - 8 - e.time.len()]);
        } else if i < a.len() + 2 {
        } else {
            assert(l[i] == e.tag[i - a.len() - 2]);
        }
    }
    if e.tag.len() > 0 {
        lemma_trimmed_last(e.tag);
        assert(l.last() == e.tag.last());
    } else {
        assert(l.last() == '#');
    }
}

proof fn lemma_entries_of_entry_lines(date: Seq<char>, es: Seq<EntryModel>)
    requires
        forall|k: int| 0 <= k < es.len() ==> (#[trigger] es[k]).date == date && is_writable_entry(es[k]),
    ensures
        entries_of_lines(date, entry_lines(es)) == es,
    decreases es.len(),
{
    if es.len() > 0 {
        let e = es.last();
        let rest = es.drop_last();
        assert forall|k: int| 0 <= k < rest.len() implies (#[trigger] rest[k]).date == date
            && is_writable_entry(rest[k]) by {
            assert(rest[k] == es[k]);
        }
        lemma_entries_of_entry_lines(date, rest);
        assert(es[es.len() - 1] == e);
        law_entry_line_round_trip(date, e.time, e.text, e.tag);
        assert(entry_lines(es).drop_last() =~= entry_lines(rest));
        assert(entry_lines(es).last() == entry_line(e.time, e.text, e.tag));
        assert(EntryModel { date, time: e.time, text: e.text, tag: e.tag } == e);
        assert(es =~= rest + seq![e]);
    } else {
        assert(entry_lines(es) =~= Seq::<Seq<char>>::empty());
    }
}

#[verifier::spinoff_prover]
proof fn lemma_day_blocks(b: Seq<char>)
    requires
        !crate::text::contains(b, day_marker()),
    ensures
        entries_of_blocks(split_on(day_marker() + b, day_marker())) == entries_of_block(b),
{
    let dm = day_marker();
    let content = dm + b;
    assert(content.subrange(0, 4) =~= dm);
    assert(is_first_match(content, dm, 0));
    lemma_split_step(content, dm, 0);
    assert(content.take(0) =~= Seq::<char>::empty());
    assert(content.skip(4) =~= b);
    lemma_split_none(b, dm);
    let blocks = split_on(content, dm);
    assert(blocks =~= seq![Seq::<char>::empty(), b]);
    assert(trim(Seq::<char>::empty()) =~= Seq::<char>::empty());
    assert(entries_of_block(Seq::<char>::empty()) =~= Seq::<EntryModel>::empty());
    let first = blocks.drop_last();
    assert(first =~= seq![Seq::<char>::empty()]);
    assert(first.drop_last() =~= Seq::<Seq<char>>::empty());
    assert(first.last() == Seq::<char>::empty());
    assert(entries_of_blocks(first.drop_last()) == Seq::<EntryModel>::empty());
    assert(entries_of_blocks(first) =~= Seq::<EntryModel>::empty());
    assert(blocks.last() == b);
    assert(entries_of_blocks(blocks) =~= entries_of_block(b));
}

#[verifier::spinoff_prover]
proof fn lemma_day_lines(date: Seq<char>, es: Seq<EntryModel>)
    requires
        forall|i: int| 0 <= i < date.len() ==> date[i] != '\n',
        trim(date) == date,
        forall|k: int| 0 <= k < es.len() ==> is_writable_entry(#[trigger] es[k]),
    ensures
        lines(join_lines(seq![date] + entry_lines(es))) == seq![date] + entry_lines(es),
{
    let ls = seq![date] + entry_lines(es);
    assert forall|k: int| 0 <= k < ls.len() implies is_plain_line(#[trigger] ls[k]) by {
        if k == 0 {
            if date.len() > 0 {
                lemma_trimmed_last(date);
            }
        } else {
            assert(ls[k] == entry_line(es[k - 1].time, es[k - 1].text, es[k - 1].tag));
            lemma_entry_line_plain(es[k - 1]);
        }
    }
    lemma_lines_of_join_lines(ls);
}

proof fn lemma_day_not_blank(date: Seq<char>, es: Seq<EntryModel>)
    requires
        es.len() > 0,
    ensures
        trim(join_lines(seq![date] + entry_lines(es))).len() > 0,
{
    let ls = seq![date] + entry_lines(es);
    let b = join_lines(ls);
    let l1 = entry_line(es[0].time, es[0].text, es[0].tag);
    assert(ls[1] == l1);
    assert(b == date + seq!['\n'] + join_lines(ls.drop_first()));
    assert(ls.drop_first()[0] == l1);
    assert(join_lines(ls.drop_first()) == l1 + seq!['\n'] + join_lines(ls.drop_first().drop_first()));
    assert(b[date.len() as int + 1] == l1[0]);
    assert(l1[0] == '-');
    lemma_trim_nonempty(b, date.len() as int + 1);
}

/// The lines of a day after its `### `: the date, then one line per entry.
pub open spec fn day_body(date: Seq<char>, es: Seq<EntryModel>) -> Seq<char> {
    join_lines(seq![date] + entry_lines(es))
}

/// What `law_day_round_trip` asks of a day: the date is trimmed and on one
/// line, each entry carries that date and reads back from its line, and the
/// day holds no further `### `.
pub open spec fn is_writable_day(date: Seq<char>, es: Seq<EntryModel>) -> bool {
    &&& forall|i: int| 0 <= i < date.len() ==> date[i] != '\n'
    &&& trim(date) == date
    &&& forall|k: int| 0 <= k < es.len() ==> (#[trigger] es[k]).date == date && is_writable_entry(es[k])
    &&& !crate::text::contains(day_body(date, es), day_marker())
}

proof fn lemma_day_body_entries(date: Seq<char>, es: Seq<EntryModel>)
    requires
        is_writable_day(date, es),
    ensures
        entries_of_block(day_body(date, es)) == es,
{
    let ls = seq![date] + entry_lines(es);
    let b = join_lines(ls);
    assert forall|k: int| 0 <= k < es.len() implies is_writable_entry(#[trigger] es[k]) by {}
    lemma_day_lines(date, es);
    lemma_entries_of_entry_lines(date, es);
    if es.len() > 0 {
        lemma_day_not_blank(date, es);
    }
    assert(ls.skip(1) =~= entry_lines(es));
    assert(lines(b)[0] == date);
    assert(entries_of_block(b) =~= es);
}

/// A day written in the journal format reads back as its entries: the date
/// heads each entry, and every entry comes back as written, in order.
/// Besides what `law_entry_line_round_trip` asks of each entry, the date and
/// the entries keep to one line each, the date is trimmed, and the day holds
/// no further `### `.
pub proof fn law_day_round_trip(date: Seq<char>, es: Seq<EntryModel>)
    requires
        is_writable_day(date, es),
    ensures
        parse_journal(day_text(date, es)) == es,
{
    lemma_day_blocks(day_body(date, es));
    lemma_day_body_entries(date, es);
}

proof fn lemma_join_lines_last_line(ls: Seq<Seq<char>>)
    requires
        ls.len() > 0,
    ensures
        join_lines(ls) == join_lines(ls.drop_last()) + ls.last() + seq!['\n'],
    decreases ls.len(),
{
    if ls.len() > 1 {
        lemma_join_lines_last_line(ls.drop_first());
        assert(ls.drop_first().drop_last() =~= ls.drop_last().drop_first());
        assert(ls.drop_first().last() == ls.last());
        assert(ls.drop_last()[0] == ls[0]);
        let nl = seq!['\n'];
        let mid = join_lines(ls.drop_last().drop_first());
        assert(join_lines(ls) == ls[0] + nl + join_lines(ls.drop_first()));
        assert(join_lines(ls.drop_last()) == ls[0] + nl + mid);
        assert(join_lines(ls.drop_first()) == mid + ls.last() + nl);
        assert(join_lines(ls) =~= join_lines(ls.drop_last()) + ls.last() + nl);
    } else {
        assert(ls.drop_last().len() == 0);
        assert(ls.drop_first().len() == 0);
        assert(ls.last() == ls[0]);
        assert(join_lines(ls.drop_first()) == Seq::<char>::empty());
        assert(join_lines(ls.drop_last()) == Seq::<char>::empty());
        assert(join_lines(ls) == ls[0] + seq!['\n'] + join_lines(ls.drop_first()));
        assert(join_lines(ls) =~= join_lines(ls.drop_last()) + ls.last() + seq!['\n']);
    }
}

/// The line break after the last entry of a day is optional: a day written
/// without it reads back as the same entries.
#[verifier::spinoff_prover]
pub proof fn law_day_without_final_line_break(date: Seq<char>, es: Seq<EntryModel>)
    requires
        is_writable_day(date, es),
        es.len() > 0,
    ensures
        parse_journal(day_text(date, es).drop_last()) == es,
{
    let dm = day_marker();
    let ls = seq![date] + entry_lines(es);
    let b = day_body(date, es);
    let c = b.drop_last();
    let e = es.last();
    let l = entry_line(e.time, e.text, e.tag);
    lemma_day_body_ends_with_line_break(date, es);
    lemma_join_lines_last_line(ls);
    assert(ls.last() == l);
    assert(c =~= join_lines(ls.drop_last()) + l);
    assert(c + seq!['\n'] =~= b);
    assert(es[es.len() - 1] == e);
    lemma_entry_line_plain(e);
    assert(l.len() > 0) by {
        assert(l[0] == '-');
    }
    assert(c.last() == l.last());
    assert(l.last() != '\n') by {
        assert(l[l.len() - 1] == l.last());
    }
    crate::text::law_final_line_break_optional(c);
    lemma_trim_nonempty(c, c.len() - 1);
    assert(!crate::text::contains(c, dm)) by {
        if crate::text::contains(c, dm) {
            let j = choose|j: int| matches_at(c, dm, j);
            assert(b.subrange(j, j + 4) =~= c.subrange(j, j + 4));
            assert(matches_at(b, dm, j));
        }
    }
    assert(day_text(date, es).drop_last() =~= dm + c);
    lemma_day_blocks(c);
    lemma_day_body_entries(date, es);
    lemma_day_not_blank(date, es);
    lemma_day_lines(date, es);
    assert(entries_of_block(c) == entries_of_block(b));
}

/// A journal file written day by day.
pub open spec fn journal_text(days: Seq<(Seq<char>, Seq<EntryModel>)>) -> Seq<char>
    decreases days.len(),
{
    if days.len() == 0 {
        Seq::empty()
    } else {
        day_text(days[0].0, days[0].1) + journal_text(days.drop_first())
    }
}

/// The entries of the days, one day after the other.
pub open spec fn entries_of_days(days: Seq<(Seq<char>, Seq<EntryModel>)>) -> Seq<EntryModel>
    decreases days.len(),
{
    if days.len() == 0 {
        Seq::empty()
    } else {
        days[0].1 + entries_of_days(days.drop_first())
    }
}

proof fn lemma_day_body_ends_with_line_break(date: Seq<char>, es: Seq<EntryModel>)
    ensures
        day_body(date, es).len() > 0,
        day_body(date, es).last() == '\n',
{
    let ls = seq![date] + entry_lines(es);
    lemma_join_lines_last(ls);
}

proof fn lemma_join_lines_last(ls: Seq<Seq<char>>)
    requires
        ls.len() > 0,
    ensures
        join_lines(ls).len() > 0,
        join_lines(ls).last() == '\n',
    decreases ls.len(),
{
    if ls.len() > 1 {
        lemma_join_lines_last(ls.drop_first());
    } else {
        assert(ls.drop_first().len() == 0);
        assert(join_lines(ls.drop_first()).len() == 0);
    }
}

#[verifier::spinoff_prover]
proof fn lemma_marker_after_block(b: Seq<char>, rest: Seq<char>)
    requires
        !crate::text::contains(b, day_marker()),
        b.len() == 0 || b.last() == '\n',
    ensures
        is_first_match(b + day_marker() + rest, day_marker(), b.len() as int),
{
    let dm = day_marker();
    let s = b + dm + rest;
    let n = b.len() as int;
    assert(s.subrange(n, n + 4) =~= dm);
    assert forall|j: int| 0 <= j < n implies !matches_at(s, dm, j) by {
        if matches_at(s, dm, j) {
            if j + 4 <= n {
                assert(b.subrange(j, j + 4) =~= s.subrange(j, j + 4));
                assert(matches_at(b, dm, j));
            } else {
                assert(s.subrange(j, j + 4)[n - 1 - j] == s[n - 1]);
                assert(s[n - 1] == b[n - 1]);
            }
        }
    }
}

#[verifier::spinoff_prover]
proof fn lemma_split_days(b: Seq<char>, days: Seq<(Seq<char>, Seq<EntryModel>)>)
    requires
        !crate::text::contains(b, day_marker()),
        b.len() == 0 || b.last() == '\n',
        forall|k: int| 0 <= k < days.len() ==> is_writable_day((#[trigger] days[k]).0, days[k].1),
    ensures
        split_on(b + journal_text(days), day_marker()) == seq![b] + days.map_values(
            |d: (Seq<char>, Seq<EntryModel>)| day_body(d.0, d.1),
        ),
    decreases days.len(),
{
    let dm = day_marker();
    let body = |d: (Seq<char>, Seq<EntryModel>)| day_body(d.0, d.1);
    if days.len() == 0 {
        assert(b + journal_text(days) =~= b);
        lemma_split_none(b, dm);
        assert(seq![b] + days.map_values(body) =~= seq![b]);
    } else {
        let d0 = days[0];
        let rest = days.drop_first();
        let b0 = day_body(d0.0, d0.1);
        let tail = b0 + journal_text(rest);
        let s = b + journal_text(days);
        let n = b.len() as int;
        assert(s == b + dm + tail) by {
            assert(s =~= b + dm + tail);
        }
        lemma_marker_after_block(b, tail);
        lemma_split_step(s, dm, n);
        assert(s.take(n) =~= b);
        assert(s.skip(n + 4) =~= tail);
        assert(is_writable_day(d0.0, d0.1));
        lemma_day_body_ends_with_line_break(d0.0, d0.1);
        assert forall|k: int| 0 <= k < rest.len() implies is_writable_day((#[trigger] rest[k]).0, rest[k].1) by {
            assert(rest[k] == days[k + 1]);
        }
        lemma_split_days(b0, rest);
        assert(days.map_values(body) =~= seq![b0] + rest.map_values(body));
    }
}

proof fn lemma_entries_of_blocks_append(xs: Seq<Seq<char>>, ys: Seq<Seq<char>>)
    ensures
        entries_of_blocks(xs + ys) == entries_of_blocks(xs) + entries_of_blocks(ys),
    decreases ys.len(),
{
    if ys.len() == 0 {
        assert(xs + ys =~= xs);
    } else {
        lemma_entries_of_blocks_append(xs, ys.drop_last());
        assert((xs + ys).drop_last() =~= xs + ys.drop_last());
        assert((xs + ys).last() == ys.last());
    }
}

#[verifier::spinoff_prover]
proof fn lemma_entries_of_day_bodies(days: Seq<(Seq<char>, Seq<EntryModel>)>)
    requires
        forall|k: int| 0 <= k < days.len() ==> is_writable_day((#[trigger] days[k]).0, days[k].1),
    ensures
        entries_of_blocks(days.map_values(|d: (Seq<char>, Seq<EntryModel>)| day_body(d.0, d.1)))
            == entries_of_days(days),
    decreases days.len(),
{
    let body = |d: (Seq<char>, Seq<EntryModel>)| day_body(d.0, d.1);
    if days.len() == 0 {
        assert(days.map_values(body) =~= Seq::<Seq<char>>::empty());
    } else {
        let d0 = days[0];
        let rest = days.drop_first();
        assert forall|k: int| 0 <= k < rest.len() implies is_writable_day((#[trigger] rest[k]).0, rest[k].1) by {
            assert(rest[k] == days[k + 1]);
        }
        lemma_entries_of_day_bodies(rest);
        assert(days.map_values(body) =~= seq![day_body(d0.0, d0.1)] + rest.map_values(body));
        lemma_entries_of_blocks_append(seq![day_body(d0.0, d0.1)], rest.map_values(body));
        assert(is_writable_day(d0.0, d0.1));
        lemma_day_body_entries(d0.0, d0.1);
        let one = seq![day_body(d0.0, d0.1)];
        assert(one.drop_last() =~= Seq::<Seq<char>>::empty());
        assert(entries_of_blocks(one.drop_last()) == Seq::<EntryModel>::empty());
        assert(one.last() == day_body(d0.0, d0.1));
        assert(entries_of_blocks(one) =~= entries_of_block(day_body(d0.0, d0.1)));
    }
}

/// A journal file written day by day reads back as all its entries, day
/// after day, each as written, when every day is written as
/// `law_day_round_trip` asks.
#[verifier::spinoff_prover]
pub proof fn law_journal_round_trip(days: Seq<(Seq<char>, Seq<EntryModel>)>)
    requires
        forall|k: int| 0 <= k < days.len() ==> is_writable_day((#[trigger] days[k]).0, days[k].1),
    ensures
        parse_journal(journal_text(days)) == entries_of_days(days),
{
    let e = Seq::<char>::empty();
    let body = |d: (Seq<char>, Seq<EntryModel>)| day_body(d.0, d.1);
    assert(!crate::text::contains(e, day_marker()));
    lemma_split_days(e, days);
    assert(e + journal_text(days) =~= journal_text(days));
    let blocks = seq![e] + days.map_values(body);
    lemma_entries_of_blocks_append(seq![e], days.map_values(body));
    lemma_entries_of_day_bodies(days);
    assert(seq![e].drop_last() =~= Seq::<Seq<char>>::empty());
    assert(trim(e) =~= e);
    assert(entries_of_block(e) =~= Seq::<EntryModel>::empty());
    assert(entries_of_blocks(seq![e].drop_last()) == Seq::<EntryModel>::empty());
    assert(seq![e].last() == e);
    assert(entries_of_blocks(seq![e]) =~= Seq::<EntryModel>::empty());
}


/// The fields of an entry carry no surrounding white space.
pub open spec fn is_trimmed_entry(e: EntryModel) -> bool {
    &&& trim(e.date) == e.date
    &&& trim(e.time) == e.time
    &&& trim(e.text) == e.text
    &&& trim(e.tag) == e.tag
}

proof fn lemma_parsed_line_trimmed(date: Seq<char>, line: Seq<char>)
    requires
        trim(date) == date,
        parse_entry_line(date, line) is Some,
    ensures
        is_trimmed_entry(parse_entry_line(date, line)->0),
{
    let parts = split_on(line, time_end_marker());
    let rest = parts[1];
    lemma_trim_idempotent(replace(parts[0], entry_marker(), Seq::empty()));
    if exists|j: int| is_last_match(rest, tag_marker(), j) {
        let j = choose|j: int| is_last_match(rest, tag_marker(), j);
        lemma_trim_idempotent(rest.take(j));
        lemma_trim_idempotent(rest.skip(j + 2));
    } else {
        lemma_trim_idempotent(rest);
        reveal_strlit("Uncategorized");
        assert(trim("Uncategorized"@) == "Uncategorized"@);
    }
}

proof fn lemma_entries_of_lines_trimmed(date: Seq<char>, ls: Seq<Seq<char>>)
    requires
        trim(date) == date,
    ensures
        forall|i: int| 0 <= i < entries_of_lines(date, ls).len() ==> is_trimmed_entry(
            #[trigger] entries_of_lines(date, ls)[i],
        ),
    decreases ls.len(),
{
    if ls.len() > 0 {
        let f = |l: Seq<char>| parse_entry_line(date, l);
        lemma_entries_of_lines_trimmed(date, ls.drop_last());
        let prev = entries_of_lines(date, ls.drop_last());
        let all = entries_of_lines(date, ls);
        assert(all == ls.filter_map(f));
        match f(ls.last()) {
            Some(e) => {
                lemma_parsed_line_trimmed(date, ls.last());
                assert(all == prev + seq![e]);
                assert forall|i: int| 0 <= i < all.len() implies is_trimmed_entry(#[trigger] all[i]) by {
                    if i < prev.len() {
                        assert(all[i] == prev[i]);
                    }
                }
            },
            None => {
                assert(all == prev);
            },
        }
    }
}

proof fn lemma_entries_of_blocks_trimmed(blocks: Seq<Seq<char>>)
    ensures
        forall|i: int| 0 <= i < entries_of_blocks(blocks).len() ==> is_trimmed_entry(
            #[trigger] entries_of_blocks(blocks)[i],
        ),
    decreases blocks.len(),
{
    if blocks.len() > 0 {
        lemma_entries_of_blocks_trimmed(blocks.drop_last());
        let b = blocks.last();
        let prev = entries_of_blocks(blocks.drop_last());
        let cur = entries_of_block(b);
        let ls = lines(b);
        if !(trim(b).len() == 0 || ls.len() == 0) {
            lemma_trim_idempotent(ls[0]);
            lemma_entries_of_lines_trimmed(trim(ls[0]), ls.skip(1));
        }
        let all = entries_of_blocks(blocks);
        assert(all == prev + cur);
        assert forall|i: int| 0 <= i < all.len() implies is_trimmed_entry(#[trigger] all[i]) by {
            if i < prev.len() {
                assert(all[i] == prev[i]);
            } else {
                assert(all[i] == cur[i - prev.len()]);
            }
        }
    }
}

/// Every entry read from a journal file has its date, time, text and tag
/// trimmed of white space.
pub proof fn law_parsed_entries_trimmed(content: Seq<char>)
    ensures
        forall|i: int| 0 <= i < parse_journal(content).len() ==> is_trimmed_entry(
            #[trigger] parse_journal(content)[i],
        ),
{
    lemma_entries_of_blocks_trimmed(split_on(content, day_marker()));
}

} // verus!
