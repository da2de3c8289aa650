//! The tags an entry can carry.

use vstd::prelude::*;

verus! {

/// A tag: its identifier and the label shown for it.
pub struct JournalTag {
    pub id: String,
    pub label: String,
}

/// The names of the registered tags, in order.
pub open spec fn tag_names() -> Seq<Seq<char>> {
    seq!["Career"@, "Coding"@, "Wellness"@, "Personal"@, "Growth"@, "Social"@]
}

fn tag(name: &str) -> (t: JournalTag)
    ensures
        t.id@ == name@,
        t.label@ == name@,
{
    JournalTag { id: name.to_owned(), label: name.to_owned() }
}

/// The registered tags: Career, Coding, Wellness, Personal, Growth and
/// Social, each labelled with its own name.
pub fn get_tag_registry() -> (r: Vec<JournalTag>)
    ensures
        r.len() == tag_names().len(),
        forall|i: int| 0 <= i < r.len() ==> #[trigger] r@[i].id@ == tag_names()[i] && r@[i].label@ == tag_names()[i],
{
    let mut r: Vec<JournalTag> = Vec::new();
    r.push(tag("Career"));
    r.push(tag("Coding"));
    r.push(tag("Wellness"));
    r.push(tag("Personal"));
    r.push(tag("Growth"));
    r.push(tag("Social"));
    r
}

} // verus!
