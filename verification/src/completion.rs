use vstd::prelude::*;

use crate::color::{hex_triplet, Color};
use crate::regions::{region_name, Region};
use crate::text::str_eq;

verus! {

/// The completion item for a link to the note `id` titled `title`:
/// `<id>|<title>`.
pub open spec fn link_item(id: Seq<char>, title: Seq<char>) -> Seq<char> {
    id + "|"@ + title
}

/// The link completion items for the notes `notes`, given as id and title,
/// in order, leaving out the note `own` that the completion is asked in.
pub open spec fn link_items(own: Seq<char>, notes: Seq<(Seq<char>, Seq<char>)>) -> Seq<Seq<char>>
    decreases notes.len(),
{
    if notes.len() == 0 {
        Seq::empty()
    } else {
        let rest = link_items(own, notes.drop_last());
        let (id, title) = notes.last();
        if id == own {
            rest
        } else {
            rest.push(link_item(id, title))
        }
    }
}

/// The link completion items for the notes `notes`, given as id and title,
/// in order, leaving out the note `own` that the completion is asked in:
/// each one `<id>|<title>`.
pub fn link_completions(own: &str, notes: &Vec<(String, String)>) -> (items: Vec<String>)
    ensures
        items@.map_values(|s: String| s@) == link_items(
            own@,
            notes@.map_values(|n: (String, String)| (n.0@, n.1@)),
        ),
{
    let ghost texts = notes@.map_values(|n: (String, String)| (n.0@, n.1@));
    let mut items: Vec<String> = Vec::new();
    let mut i: usize = 0;
    assert(texts.take(0) =~= Seq::<(Seq<char>, Seq<char>)>::empty());
    assert(items@.map_values(|s: String| s@) =~= Seq::<Seq<char>>::empty());
    while i < notes.len()
        invariant
            i <= notes@.len(),
            texts == notes@.map_values(|n: (String, String)| (n.0@, n.1@)),
            items@.map_values(|s: String| s@) == link_items(own@, texts.take(i as int)),
        decreases notes.len() - i,
    {
        let (id, title) = (&notes[i].0, &notes[i].1);
        assert(texts.take(i + 1).drop_last() =~= texts.take(i as int));
        assert(texts.take(i + 1).last() == (id@, title@));
        if !str_eq(id.as_str(), own) {
            let ghost before = items@.map_values(|s: String| s@);
            let mut item = id.clone();
            item.append("|");
            item.append(title.as_str());
            items.push(item);
            assert(items@.map_values(|s: String| s@) =~= before.push(link_item(id@, title@)));
        }
        i = i + 1;
    }
    assert(texts.take(notes@.len() as int) =~= texts);
    items
}

/// What a completion request asks for.
#[derive(Debug, Clone, Copy, PartialEq, Eq, Structural)]
pub enum CompletionKind {
    /// Links to notes, asked for by typing `[[`.
    Link,
    /// Tags, asked for by typing `@`.
    Tag,
}

/// The completion that the trigger text asks for: links after `[[`, tags
/// after `@`, none for any other trigger or for a request without one.
pub open spec fn kind_of_trigger(trigger: Option<Seq<char>>) -> Option<CompletionKind> {
    match trigger {
        Some(t) => if t == "[["@ {
            Some(CompletionKind::Link)
        } else if t == "@"@ {
            Some(CompletionKind::Tag)
        } else {
            None
        },
        None => None,
    }
}

/// The completion that a request with the trigger text `trigger` asks for.
pub fn completion_kind(trigger: Option<&str>) -> (k: Option<CompletionKind>)
    ensures
        k == kind_of_trigger(
            match trigger {
                Some(t) => Some(t@),
                None => None,
            },
        ),
{
    match trigger {
        Some(t) => if str_eq(t, "[[") {
            Some(CompletionKind::Link)
        } else if str_eq(t, "@") {
            Some(CompletionKind::Tag)
        } else {
            None
        },
        None => None,
    }
}

/// The detail shown with a tag completion: the tag's name, then its colour
/// on a line of its own: `<name>\ncolor: #RRGGBB`.
pub fn tag_detail(name: &str, color: &Color) -> (s: String)
    ensures
        s@ == name@ + "\ncolor: "@ + hex_triplet(*color),
{
    let mut s = String::from_str(name);
    s.append("\ncolor: ");
    let hex = color.to_hex_string();
    s.append(hex.as_str());
    s
}

/// The label of a region in the region switcher: its name between spaces.
pub open spec fn switcher_label(r: Region) -> Seq<char> {
    " "@ + region_name(r) + " "@
}

/// The labels of the region switcher, one per region in the order of
/// `Region::all`, each with whether it is the selected one.
pub fn switcher_labels(selected: Region) -> (labels: Vec<(String, bool)>)
    ensures
        labels@.len() == 2,
        labels@[0].0@ == switcher_label(Region::Home),
        labels@[0].1 == (selected == Region::Home),
        labels@[1].0@ == switcher_label(Region::Zk),
        labels@[1].1 == (selected == Region::Zk),
{
    let all = Region::all();
    let mut labels: Vec<(String, bool)> = Vec::new();
    let mut i: usize = 0;
    while i < all.len()
        invariant
            all@ == seq![Region::Home, Region::Zk],
            i <= 2,
            labels@.len() == i,
            forall|k: int|
                0 <= k < i ==> (#[trigger] labels@[k]).0@ == switcher_label(all@[k]) && labels@[k].1
                    == (selected == all@[k]),
        decreases 2 - i,
    {
        let r = all[i];
        let mut label = String::from_str(" ");
        label.append(r.name());
        label.append(" ");
        labels.push((label, r == selected));
        i = i + 1;
    }
    labels
}

} // verus!
