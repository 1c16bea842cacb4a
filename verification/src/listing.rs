//! The texts that show the index: the list of users by registry, and the
//! completions.

use crate::sorted::SortedVec;
use crate::state::{entry_views, slots_listing, State, StateEntry, StateEntryView};
use vstd::prelude::*;
use vstd::string::StringExecFns;

verus! {

/// The line that shows one entry: two blanks, `*` for the entry in use and a
/// blank for any other, a blank, the user name.
pub open spec fn entry_line(e: StateEntryView) -> Seq<char> {
    "  "@ + (if e.is_used {
        "*"@
    } else {
        " "@
    }) + " "@ + e.username + "\n"@
}

/// The lines of the entries, in order.
pub open spec fn entry_lines(entries: Seq<StateEntryView>) -> Seq<char>
    decreases entries.len(),
{
    if entries.len() == 0 {
        Seq::empty()
    } else {
        entry_lines(entries.drop_last()) + entry_line(entries.last())
    }
}

/// What is shown of one registry: its name on a line, then its entries.
pub open spec fn registry_block(block: (Seq<char>, Seq<StateEntryView>)) -> Seq<char> {
    block.0 + "\n"@ + entry_lines(block.1)
}

/// The blocks of the registries, in order, with an empty line between two.
pub open spec fn registry_blocks(listing: Seq<(Seq<char>, Seq<StateEntryView>)>) -> Seq<char>
    decreases listing.len(),
{
    if listing.len() == 0 {
        Seq::empty()
    } else if listing.len() == 1 {
        registry_block(listing[0])
    } else {
        registry_blocks(listing.drop_last()) + "\n"@ + registry_block(listing.last())
    }
}

/// What is shown of an index without any registry.
pub open spec fn nothing_listed() -> Seq<char> {
    "You haven't logged in to any registry.\n"@
}

/// What is shown of an index.
pub open spec fn listing_text(listing: Seq<(Seq<char>, Seq<StateEntryView>)>) -> Seq<char> {
    if listing.len() == 0 {
        nothing_listed()
    } else {
        registry_blocks(listing)
    }
}

/// The lines of the entries of one registry.
fn entry_lines_text(entries: &SortedVec<StateEntry>) -> (text: String)
    ensures
        text@ == entry_lines(entry_views(entries@)),
{
    let ghost views = entry_views(entries@);
    let mut text = String::new();
    let n = entries.len();
    let mut j: usize = 0;
    assert(views.take(0) =~= Seq::<StateEntryView>::empty());
    while j < n
        invariant
            n == entries@.len(),
            j <= n,
            views == entry_views(entries@),
            text@ == entry_lines(views.take(j as int)),
        decreases n - j,
    {
        match entries.get(j) {
            Some(entry) => {
                let ghost before = text@;
                text.append("  ");
                text.append(
                    if entry.is_used() {
                        "*"
                    } else {
                        " "
                    },
                );
                text.append(" ");
                text.append(entry.username());
                text.append("\n");
                proof {
                    assert(views.take(j + 1).drop_last() =~= views.take(j as int));
                    assert(views.take(j + 1).last() == entry@);
                    assert(text@ =~= before + entry_line(entry@));
                }
            },
            None => {},
        }
        j += 1;
    }
    assert(views.take(n as int) =~= views);
    text
}

/// The text that shows the index: what `list` prints.
pub fn print(state: &State) -> (text: String)
    ensures
        text@ == listing_text(state.listing()),
{
    let ghost listing = state.listing();
    let registries = state.entries();
    let n = registries.len();
    if n == 0 {
        return "You haven't logged in to any registry.\n".to_owned();
    }
    let mut text = String::new();
    let mut i: usize = 0;
    assert(listing.take(0) =~= Seq::<(Seq<char>, Seq<StateEntryView>)>::empty());
    while i < n
        invariant
            n == registries.slots().len(),
            slots_listing(registries.slots()) == listing,
            i <= n,
            listing == state.listing(),
            text@ == registry_blocks(listing.take(i as int)),
        decreases n - i,
    {
        match registries.slot(i) {
            Some(slot) => {
                let ghost before = text@;
                let lines = entry_lines_text(&slot.value);
                if i != 0 {
                    text.append("\n");
                }
                text.append(slot.name.as_str());
                text.append("\n");
                text.append(lines.as_str());
                proof {
                    let block = listing[i as int];
                    assert(listing.take(i + 1).drop_last() =~= listing.take(i as int));
                    assert(listing.take(i + 1).last() == block);
                    if i == 0 {
                        assert(text@ =~= registry_block(block));
                    } else {
                        assert(text@ =~= before + "\n"@ + registry_block(block));
                    }
                }
            },
            None => {},
        }
        i += 1;
    }
    assert(listing.take(n as int) =~= listing);
    text
}

/// The completions for the users of one registry: for each entry a line
/// with the user name, `@`, and the registry.
pub open spec fn registry_completions(registry: Seq<char>, entries: Seq<StateEntryView>) -> Seq<
    char,
>
    decreases entries.len(),
{
    if entries.len() == 0 {
        Seq::empty()
    } else {
        registry_completions(registry, entries.drop_last()) + entries.last().username + "@"@
            + registry + "\n"@
    }
}

/// The completions for all users of the index, registry by registry.
pub open spec fn completions(listing: Seq<(Seq<char>, Seq<StateEntryView>)>) -> Seq<char>
    decreases listing.len(),
{
    if listing.len() == 0 {
        Seq::empty()
    } else {
        completions(listing.drop_last()) + registry_completions(
            listing.last().0,
            listing.last().1,
        )
    }
}

/// The completions for the users of one registry.
fn registry_completions_text(registry: &str, entries: &SortedVec<StateEntry>) -> (text: String)
    ensures
        text@ == registry_completions(registry@, entry_views(entries@)),
{
    let ghost views = entry_views(entries@);
    let mut text = String::new();
    let n = entries.len();
    let mut j: usize = 0;
    assert(views.take(0) =~= Seq::<StateEntryView>::empty());
    while j < n
        invariant
            n == entries@.len(),
            j <= n,
            views == entry_views(entries@),
            text@ == registry_completions(registry@, views.take(j as int)),
        decreases n - j,
    {
        match entries.get(j) {
            Some(entry) => {
                text.append(entry.username());
                text.append("@");
                text.append(registry);
                text.append("\n");
                proof {
                    assert(views.take(j + 1).drop_last() =~= views.take(j as int));
                    assert(views.take(j + 1).last() == entry@);
                }
            },
            None => {},
        }
        j += 1;
    }
    assert(views.take(n as int) =~= views);
    text
}

/// The text of the completions: for every entry of the index a line
/// `username@registry`.
pub fn generate_autocomplete(state: &State) -> (text: String)
    ensures
        text@ == completions(state.listing()),
{
    let ghost listing = state.listing();
    let mut text = String::new();
    let registries = state.entries();
    let n = registries.len();
    let mut i: usize = 0;
    assert(listing.take(0) =~= Seq::<(Seq<char>, Seq<StateEntryView>)>::empty());
    while i < n
        invariant
            n == registries.slots().len(),
            slots_listing(registries.slots()) == listing,
            i <= n,
            listing == state.listing(),
            text@ == completions(listing.take(i as int)),
        decreases n - i,
    {
        match registries.slot(i) {
            Some(slot) => {
                let lines = registry_completions_text(slot.name.as_str(), &slot.value);
                text.append(lines.as_str());
                proof {
                    assert(listing.take(i + 1).drop_last() =~= listing.take(i as int));
                    assert(listing.take(i + 1).last() == listing[i as int]);
                }
            },
            None => {},
        }
        i += 1;
    }
    assert(listing.take(n as int) =~= listing);
    text
}

} // verus!
