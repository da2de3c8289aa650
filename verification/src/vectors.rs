//! The semantic index: identifiers and indexed text of entries, the order in
//! which search matches are returned, and the messages of a sync.

use vstd::prelude::*;
use std::collections::hash_map::DefaultHasher;
use std::hash::{Hash, Hasher};
use vstd::std_specs::hash::DefaultHasherAdditionalSpecFns;
use crate::journal::{RawEntry, EntryModel};
use crate::sorting::{stable_sort, lemma_insert_at, total_preorder, lemma_stable_sort_sorted,
    lemma_stable_sort_len, lemma_stable_sort_permutes};
use crate::text::{chars_of, string_of, append_str, push_decimal, decimal};

verus! {

/// The writes that `Hash for str` makes to a hasher for `text`.
pub uninterp spec fn str_hash_writes(text: Seq<char>) -> Seq<Seq<u8>>;

/// Calls `<str as Hash>::hash(text, state)`. It states that hashing a
/// string appends to the hasher the writes named `str_hash_writes(text)`,
/// which depend on the text alone; which bytes they are is left unsaid.
#[verifier::external_body]
fn hash_str_into(text: &str, state: &mut DefaultHasher)
    ensures
        final(state)@ == old(state)@ + str_hash_writes(text@),
{
    text.hash(state)
}

/// The hash of a text by a new `DefaultHasher`.
pub open spec fn default_text_hash(text: Seq<char>) -> u64 {
    DefaultHasher::spec_finish(str_hash_writes(text))
}

/// Hashes `text` with a new `DefaultHasher`.
fn text_hash(text: &str) -> (h: u64)
    ensures
        h == default_text_hash(text@),
{
    let mut hasher = DefaultHasher::new();
    hash_str_into(text, &mut hasher);
    assert(hasher@ =~= str_hash_writes(text@));
    hasher.finish()
}

/// The index identifier of an entry dated `date` with text `text`.
pub open spec fn journal_entry_id_spec(date: Seq<char>, text: Seq<char>) -> Seq<char> {
    date + seq!['-'] + decimal(default_text_hash(text) as nat)
}

/// The index identifier of an entry: its date, `-`, and the decimal hash of
/// its text.
pub fn journal_entry_id(entry: &RawEntry) -> (r: String)
    ensures
        r@ == journal_entry_id_spec(entry.date@, entry.text@),
{
    let h = text_hash(entry.text.as_str());
    let mut v = chars_of(entry.date.as_str());
    v.push('-');
    push_decimal(&mut v, h);
    string_of(&v)
}

/// The text that is embedded and stored for an entry.
pub open spec fn enriched_content_spec(e: EntryModel) -> Seq<char> {
    "Date: "@ + e.date + " | Tag: #"@ + e.tag + " | Entry: "@ + e.text
}

/// The stored text of an entry holds its whole date, tag and text, in that
/// order, after `Date: `, ` | Tag: #` and ` | Entry: `; the whole text ends
/// it.
pub proof fn law_enriched_content_holds_entry(e: EntryModel)
    ensures
        enriched_content_spec(e) == seq!['D', 'a', 't', 'e', ':', ' '] + e.date + seq![
            ' ',
            '|',
            ' ',
            'T',
            'a',
            'g',
            ':',
            ' ',
            '#',
        ] + e.tag + seq![' ', '|', ' ', 'E', 'n', 't', 'r', 'y', ':', ' '] + e.text,
        enriched_content_spec(e).len() == e.date.len() + e.tag.len() + e.text.len() + 25,
        enriched_content_spec(e).subrange(6, e.date.len() as int + 6) == e.date,
        enriched_content_spec(e).subrange(e.date.len() as int + 15, e.date.len() as int + e.tag.len() as int + 15)
            == e.tag,
        enriched_content_spec(e).skip(e.date.len() as int + e.tag.len() as int + 25) == e.text,
{
    reveal_strlit("Date: ");
    reveal_strlit(" | Tag: #");
    reveal_strlit(" | Entry: ");
    let c = enriched_content_spec(e);
    let d = e.date.len() as int;
    let t = e.tag.len() as int;
    assert(c =~= seq!['D', 'a', 't', 'e', ':', ' '] + e.date + seq![
        ' ',
        '|',
        ' ',
        'T',
        'a',
        'g',
        ':',
        ' ',
        '#',
    ] + e.tag + seq![' ', '|', ' ', 'E', 'n', 't', 'r', 'y', ':', ' '] + e.text);
    assert(c.subrange(6, d + 6) =~= e.date);
    assert(c.subrange(d + 15, d + t + 15) =~= e.tag);
    assert(c.skip(d + t + 25) =~= e.text);
}

/// The text that is embedded and stored for an entry, with its date and tag
/// so that a search can match them and an answer can cite them.
pub fn enriched_content(entry: &RawEntry) -> (r: String)
    ensures
        r@ == enriched_content_spec(entry@),
{
    let mut v = chars_of("Date: ");
    append_str(&mut v, entry.date.as_str());
    append_str(&mut v, " | Tag: #");
    append_str(&mut v, entry.tag.as_str());
    append_str(&mut v, " | Entry: ");
    append_str(&mut v, entry.text.as_str());
    string_of(&v)
}

/// The identifier under which the bulk indexer stores an entry: its date,
/// `-`, and its time.
pub fn index_entry_id(entry: &RawEntry) -> (r: String)
    ensures
        r@ == entry.date@ + seq!['-'] + entry.time@,
{
    let mut v = chars_of(entry.date.as_str());
    v.push('-');
    append_str(&mut v, entry.time.as_str());
    string_of(&v)
}

/// One entry of a sync: whether to index it (only if its identifier is not
/// stored yet) and the count of newly indexed entries after it.
pub fn sync_step(already_indexed: bool, count: usize) -> (r: (bool, usize))
    requires
        already_indexed || count < usize::MAX,
    ensures
        r.0 == !already_indexed,
        r.1 == if already_indexed {
            count as int
        } else {
            count + 1
        },
{
    if already_indexed {
        (false, count)
    } else {
        (true, count + 1)
    }
}

/// The index identifiers of entries, in order.
pub open spec fn entry_ids(es: Seq<EntryModel>) -> Seq<Seq<char>> {
    es.map_values(|e: EntryModel| journal_entry_id_spec(e.date, e.text))
}

/// The stored identifiers and the count of newly indexed entries after
/// syncing entries with identifiers `ids`, one after the other by
/// `sync_step`, into a store that held `stored`.
pub open spec fn sync_outcome(ids: Seq<Seq<char>>, stored: Set<Seq<char>>) -> (Set<Seq<char>>, nat)
    decreases ids.len(),
{
    if ids.len() == 0 {
        (stored, 0)
    } else {
        let (s, n) = sync_outcome(ids.drop_last(), stored);
        if s.contains(ids.last()) {
            (s, n)
        } else {
            (s.insert(ids.last()), n + 1)
        }
    }
}

/// After a sync the store holds what it held and every synced identifier.
pub proof fn law_sync_stores_all(ids: Seq<Seq<char>>, stored: Set<Seq<char>>)
    ensures
        sync_outcome(ids, stored).0 == stored + ids.to_set(),
    decreases ids.len(),
{
    if ids.len() > 0 {
        law_sync_stores_all(ids.drop_last(), stored);
        assert(ids =~= ids.drop_last().push(ids.last()));
        assert(ids.to_set() =~= ids.drop_last().to_set().insert(ids.last())) by {
            assert forall|x: Seq<char>| ids.to_set().contains(x) <==> ids.drop_last().to_set().insert(ids.last()).contains(x) by {
                if ids.contains(x) {
                    let k = choose|k: int| 0 <= k < ids.len() && ids[k] == x;
                    if k < ids.len() - 1 {
                        assert(ids.drop_last()[k] == x);
                    }
                }
                if ids.drop_last().contains(x) {
                    let k = choose|k: int| 0 <= k < ids.drop_last().len() && ids.drop_last()[k] == x;
                    assert(ids[k] == x);
                }
                if x == ids.last() {
                    assert(ids[ids.len() - 1] == x);
                }
            }
        }
        let s = sync_outcome(ids.drop_last(), stored).0;
        if s.contains(ids.last()) {
            assert(s =~= s.insert(ids.last()));
        }
        assert(stored + ids.to_set() =~= (stored + ids.drop_last().to_set()).insert(ids.last()));
    } else {
        assert(ids.to_set() =~= Set::<Seq<char>>::empty());
        assert(stored + ids.to_set() =~= stored);
    }
}

proof fn lemma_sync_all_stored(ids: Seq<Seq<char>>, stored: Set<Seq<char>>)
    requires
        forall|k: int| 0 <= k < ids.len() ==> stored.contains(#[trigger] ids[k]),
    ensures
        sync_outcome(ids, stored) == (stored, 0nat),
    decreases ids.len(),
{
    if ids.len() > 0 {
        assert forall|k: int| 0 <= k < ids.drop_last().len() implies stored.contains(#[trigger] ids.drop_last()[k]) by {
            assert(ids.drop_last()[k] == ids[k]);
        }
        lemma_sync_all_stored(ids.drop_last(), stored);
        assert(stored.contains(ids[ids.len() - 1]));
    }
}

/// Syncing the same entries a second time indexes nothing new and leaves the
/// store as the first sync left it.
pub proof fn law_second_sync_indexes_nothing(es: Seq<EntryModel>, stored: Set<Seq<char>>)
    ensures
        sync_outcome(entry_ids(es), sync_outcome(entry_ids(es), stored).0) == (
            sync_outcome(entry_ids(es), stored).0,
            0nat,
        ),
{
    let ids = entry_ids(es);
    law_sync_stores_all(ids, stored);
    let s1 = sync_outcome(ids, stored).0;
    assert forall|k: int| 0 <= k < ids.len() implies s1.contains(#[trigger] ids[k]) by {
        assert(ids.to_set().contains(ids[k]));
    }
    lemma_sync_all_stored(ids, s1);
}

/// The message after a sync that indexed `count` new entries.
pub open spec fn sync_summary_spec(count: nat) -> Seq<char> {
    if count > 0 {
        "Successfully indexed "@ + decimal(count) + " new memories."@
    } else {
        "Journal is already up to date."@
    }
}

/// The message after a sync that indexed `count` new entries.
pub fn sync_summary(count: usize) -> (r: String)
    ensures
        r@ == sync_summary_spec(count as nat),
{
    if count > 0 {
        let mut v = chars_of("Successfully indexed ");
        push_decimal(&mut v, count as u64);
        append_str(&mut v, " new memories.");
        string_of(&v)
    } else {
        "Journal is already up to date.".to_owned()
    }
}

/// A stored entry with its similarity to the query, given as a rank: of two
/// matches, the one with the greater rank is the more similar.
pub struct ScoredMatch {
    pub rank: i64,
    pub content: String,
}

/// What a match holds.
pub open spec fn match_view(m: ScoredMatch) -> (int, Seq<char>) {
    (m.rank as int, m.content@)
}

/// The views of a list of matches.
pub open spec fn matches_view(v: Seq<ScoredMatch>) -> Seq<(int, Seq<char>)> {
    v.map_values(|m: ScoredMatch| match_view(m))
}

/// Matches ordered from the most similar down.
pub open spec fn rank_order() -> spec_fn((int, Seq<char>), (int, Seq<char>)) -> bool {
    |a: (int, Seq<char>), b: (int, Seq<char>)| a.0 >= b.0
}

/// The contents of the `top_k` most similar matches, the most similar first;
/// among equally similar matches the earlier comes first.
pub open spec fn top_matches_spec(ms: Seq<(int, Seq<char>)>, top_k: nat) -> Seq<Seq<char>> {
    let sorted = stable_sort(ms, rank_order());
    let n = if top_k < sorted.len() { top_k as int } else { sorted.len() as int };
    sorted.take(n).map_values(|m: (int, Seq<char>)| m.1)
}

/// The contents of the `top_k` most similar matches, the most similar first
/// (a stable sort by decreasing similarity, then the first `top_k`).
pub fn select_top_matches(matches: &Vec<ScoredMatch>, top_k: usize) -> (r: Vec<String>)
    ensures
        r@.map_values(|s: String| s@) == top_matches_spec(matches_view(matches@), top_k as nat),
{
    let ghost mv = matches_view(matches@);
    let mut res: Vec<ScoredMatch> = Vec::new();
    let mut i: usize = 0;
    assert(mv.take(0) =~= Seq::<(int, Seq<char>)>::empty());
    assert(matches_view(res@) =~= Seq::<(int, Seq<char>)>::empty());
    while i < matches.len()
        invariant
            i <= matches.len(),
            mv == matches_view(matches@),
            matches_view(res@) == stable_sort(mv.take(i as int), rank_order()),
        decreases matches.len() - i,
    {
        let x = ScoredMatch { rank: matches[i].rank, content: matches[i].content.clone() };
        let mut j: usize = res.len();
        while j > 0 && res[j - 1].rank < x.rank
            invariant
                j <= res.len(),
                forall|k: int| j <= k < res.len() ==> #[trigger] res@[k].rank < x.rank,
            decreases j,
        {
            j -= 1;
        }
        let ghost before = matches_view(res@);
        proof {
            assert forall|k: int| j <= k < before.len() implies !(rank_order())(#[trigger] before[k], match_view(x)) by {
                assert(before[k] == match_view(res@[k]));
            }
            if j > 0 {
                assert(before[j - 1] == match_view(res@[j - 1]));
            }
            lemma_insert_at(before, match_view(x), rank_order(), j as int);
        }
        res.insert(j, x);
        proof {
            assert(matches_view(res@) =~= before.take(j as int).push(match_view(x)) + before.skip(j as int));
            let t = mv.take(i + 1);
            assert(t.drop_last() =~= mv.take(i as int));
            assert(t.last() == match_view(matches@[i as int]));
        }
        i += 1;
    }
    assert(mv.take(matches.len() as int) =~= mv);
    let n = if top_k < res.len() { top_k } else { res.len() };
    let mut out: Vec<String> = Vec::new();
    let mut k: usize = 0;
    while k < n
        invariant
            k <= n <= res.len(),
            out@.map_values(|s: String| s@) == matches_view(res@).take(k as int).map_values(
                |m: (int, Seq<char>)| m.1,
            ),
        decreases n - k,
    {
        let c = res[k].content.clone();
        let ghost before = out@;
        out.push(c);
        assert(c@ == matches_view(res@)[k as int].1);
        assert(out@.map_values(|s: String| s@) =~= before.map_values(|s: String| s@).push(c@));
        assert(matches_view(res@).take(k + 1) =~= matches_view(res@).take(k as int).push(matches_view(res@)[k as int]));
        assert(out@.map_values(|s: String| s@) =~= matches_view(res@).take(k + 1).map_values(
            |m: (int, Seq<char>)| m.1,
        ));
        k += 1;
    }
    out
}

/// The kinds of file-system change that the journal watcher tells apart.
pub enum WatchEventKind {
    /// A file in the journal folder was modified.
    Modify,
    /// Any other change.
    Other,
}

/// Whether a change in the journal folder calls for indexing it again: only
/// modifications do.
pub fn should_resync(kind: &WatchEventKind) -> (b: bool)
    ensures
        b == (*kind is Modify),
{
    match kind {
        WatchEventKind::Modify => true,
        WatchEventKind::Other => false,
    }
}


/// Two entries with the same date and text get the same identifier, so an
/// entry that is already indexed is recognised when the journal is synced
/// again.
pub proof fn law_entry_id_depends_on_date_and_text(a: EntryModel, b: EntryModel)
    requires
        a.date == b.date,
        a.text == b.text,
    ensures
        journal_entry_id_spec(a.date, a.text) == journal_entry_id_spec(b.date, b.text),
{
}

/// A search returns `top_k` matches, or all of them if there are fewer; each
/// is the content of a stored match; and they come from the most similar
/// down.
pub proof fn law_top_matches(ms: Seq<(int, Seq<char>)>, top_k: nat)
    ensures
        top_matches_spec(ms, top_k).len() == if top_k < ms.len() { top_k as int } else { ms.len() as int },
        forall|i: int|
            0 <= i < top_matches_spec(ms, top_k).len() ==> exists|j: int|
                0 <= j < ms.len() && #[trigger] top_matches_spec(ms, top_k)[i] == ms[j].1,
        forall|i: int, j: int|
            0 <= i < j < top_matches_spec(ms, top_k).len() ==> #[trigger] stable_sort(ms, rank_order())[i].0
                >= #[trigger] stable_sort(ms, rank_order())[j].0,
{
    let le = rank_order();
    assert(total_preorder(le));
    lemma_stable_sort_len(ms, le);
    lemma_stable_sort_sorted(ms, le);
    lemma_stable_sort_permutes(ms, le);
    let sorted = stable_sort(ms, le);
    let r = top_matches_spec(ms, top_k);
    assert forall|i: int| 0 <= i < r.len() implies exists|j: int| 0 <= j < ms.len() && #[trigger] r[i] == ms[j].1 by {
        let x = sorted[i];
        assert(sorted.to_multiset().count(x) > 0) by {
            assert(sorted.contains(x));
            sorted.to_multiset_ensures();
        }
        ms.to_multiset_ensures();
        assert(ms.contains(x));
        let j = choose|j: int| 0 <= j < ms.len() && ms[j] == x;
        assert(r[i] == ms[j].1);
    }
    assert forall|i: int, j: int| 0 <= i < j < r.len() implies #[trigger] sorted[i].0 >= #[trigger] sorted[j].0 by {
        assert(le(sorted[i], sorted[j]));
    }
}

} // verus!
