//! Candidates and the providers that supply them.

use crate::history::History;
use crate::text::str_eq;
use vstd::prelude::*;

verus! {

/// Which provider produced a candidate. Histories are kept per source, so
/// equal names of different sources do not collide.
#[allow(clippy::upper_case_acronyms)]
#[derive(Debug, PartialEq, Eq, Structural, Clone, Copy)]
pub enum ProviderType {
    /// An executable found in a directory of the search path.
    PATH,
}

impl ProviderType {
    /// The source that goes by `name` on the command line: `path`. Any
    /// other name is unknown.
    pub fn from_name(name: &str) -> (source: Option<ProviderType>)
        ensures
            source == if name@ == "path"@ {
                Some(ProviderType::PATH)
            } else {
                None::<ProviderType>
            },
    {
        if str_eq(name, "path") {
            Some(ProviderType::PATH)
        } else {
            None
        }
    }

    /// The key under which the history of this source is kept.
    pub fn to_string(&self) -> (key: String)
        ensures
            key@ == "PATH"@,
    {
        match self {
            ProviderType::PATH => "PATH".to_owned(),
        }
    }
}

/// One launchable thing.
pub struct ProviderItem {
    /// What is shown and what the query is matched against.
    pub name: String,
    /// The provider that produced the item.
    pub provider_type: ProviderType,
    /// The command line, in shell syntax; `None` for an item that only informs.
    pub executable: Option<String>,
    /// The usage weight that the provider found in its history.
    pub base_score: usize,
}

/// A candidate as plain values.
pub struct ItemView {
    pub name: Seq<char>,
    pub provider_type: ProviderType,
    pub executable: Option<Seq<char>>,
    pub base_score: usize,
}

impl View for ProviderItem {
    type V = ItemView;

    open spec fn view(&self) -> ItemView {
        ItemView {
            name: self.name@,
            provider_type: self.provider_type,
            executable: match self.executable {
                Some(command) => Some(command@),
                None => None,
            },
            base_score: self.base_score,
        }
    }
}

/// The candidates of a list as plain values.
pub open spec fn item_views(items: Seq<ProviderItem>) -> Seq<ItemView> {
    items.map_values(|item: ProviderItem| item@)
}

impl Default for ProviderItem {
    /// An unnamed item of the search path that cannot be executed, with weight 1.
    fn default() -> (item: ProviderItem)
        ensures
            item@ == (ItemView {
                name: Seq::<char>::empty(),
                provider_type: ProviderType::PATH,
                executable: None,
                base_score: 1,
            }),
    {
        ProviderItem {
            name: String::new(),
            provider_type: ProviderType::PATH,
            executable: None,
            base_score: 1,
        }
    }
}

impl Clone for ProviderItem {
    fn clone(&self) -> (copy: ProviderItem)
        ensures
            copy@ == self@,
    {
        let executable = match &self.executable {
            Some(command) => Some(command.clone()),
            None => None,
        };
        ProviderItem {
            name: self.name.clone(),
            provider_type: self.provider_type,
            executable,
            base_score: self.base_score,
        }
    }
}

impl ProviderItem {
    /// The text that stands for the item where it is shown or printed: its name.
    pub fn to_string(&self) -> (text: String)
        ensures
            text@ == self.name@,
    {
        self.name.clone()
    }

    /// The item that stands for a typed query which is to be run as it is:
    /// the query is both its name and its command line.
    pub fn from_query(query: &str) -> (item: ProviderItem)
        ensures
            item@ == (ItemView {
                name: query@,
                provider_type: ProviderType::PATH,
                executable: Some(query@),
                base_score: 1,
            }),
    {
        ProviderItem {
            name: query.to_owned(),
            provider_type: ProviderType::PATH,
            executable: Some(query.to_owned()),
            base_score: 1,
        }
    }
}

/// What a directory listing says of one entry.
pub struct PathEntry {
    /// The file name, without its directory.
    pub name: String,
    /// Whether the entry is a directory.
    pub is_dir: bool,
    /// The permission bits of the entry.
    pub mode: u32,
}

/// Whether an entry with these properties can be launched: it is no
/// directory, and owner, group or others may execute it.
pub open spec fn launchable(is_dir: bool, mode: u32) -> bool {
    !is_dir && mode & 0o111 != 0
}

/// The candidate that stands for a launchable entry: named and run by the
/// file name, weighted by the history, 0 where the history does not know it.
pub open spec fn path_item(name: Seq<char>, history: Map<Seq<char>, usize>) -> ItemView {
    ItemView {
        name,
        provider_type: ProviderType::PATH,
        executable: Some(name),
        base_score: if history.contains_key(name) {
            history[name]
        } else {
            0
        },
    }
}

/// Whether an entry of a listing becomes a candidate: it can be launched
/// and has a name. (A candidate without a name could not be found by any
/// query that is typed.)
pub open spec fn is_candidate(entry: PathEntry) -> bool {
    launchable(entry.is_dir, entry.mode) && entry.name@.len() > 0
}

/// The candidates for a listing: one for each launchable entry that has a
/// name, in the order of the listing, equal names included.
pub open spec fn path_items(entries: Seq<PathEntry>, history: Map<Seq<char>, usize>) -> Seq<
    ItemView,
>
    decreases entries.len(),
{
    if entries.len() == 0 {
        Seq::empty()
    } else {
        let before = path_items(entries.drop_last(), history);
        let entry = entries.last();
        if is_candidate(entry) {
            before.push(path_item(entry.name@, history))
        } else {
            before
        }
    }
}

/// Every candidate for a listing has a name, comes from the search path, and
/// is run by its name.
pub proof fn lemma_path_items_named(
    entries: Seq<PathEntry>,
    history: Map<Seq<char>, usize>,
    k: int,
)
    requires
        0 <= k < path_items(entries, history).len(),
    ensures
        path_items(entries, history)[k].name.len() > 0,
        path_items(entries, history)[k].provider_type == ProviderType::PATH,
        path_items(entries, history)[k].executable == Some(path_items(entries, history)[k].name),
    decreases entries.len(),
{
    if entries.len() > 0 {
        let before = path_items(entries.drop_last(), history);
        if k < before.len() {
            lemma_path_items_named(entries.drop_last(), history, k);
        }
    }
}

/// The provider for the executables on the search path.
pub struct PathProvider {
    history: History,
}

impl PathProvider {
    /// A provider that weighs its candidates by `history`.
    pub fn new(history: History) -> (provider: PathProvider)
        requires
            history.wf(),
        ensures
            provider.wf(),
            provider.history() == history@,
    {
        PathProvider { history }
    }

    /// The provider's history is well formed.
    pub closed spec fn wf(&self) -> bool {
        self.history.wf()
    }

    /// The snapshot of the history that the provider took when it was made.
    pub closed spec fn history(&self) -> Map<Seq<char>, usize> {
        self.history@
    }

    /// Whether a directory entry is kept as a candidate.
    pub fn is_launchable(entry: &PathEntry) -> (keep: bool)
        ensures
            keep == launchable(entry.is_dir, entry.mode),
    {
        !entry.is_dir && entry.mode & 0o111 != 0
    }

    /// The candidates for the entries of the directories on the search path,
    /// listed in the order of the path. An entry without a name is left out,
    /// so every candidate has one.
    pub fn get_options(&self, entries: &Vec<PathEntry>) -> (items: Vec<ProviderItem>)
        requires
            self.wf(),
        ensures
            item_views(items@) == path_items(entries@, self.history()),
            forall|k: int| 0 <= k < items@.len() ==> (#[trigger] items@[k]).name@.len() > 0,
    {
        let mut items: Vec<ProviderItem> = Vec::new();
        let mut i: usize = 0;
        assert(item_views(items@) =~= path_items(entries@.take(0), self.history()));
        while i < entries.len()
            invariant
                self.wf(),
                i <= entries.len(),
                item_views(items@) == path_items(entries@.take(i as int), self.history()),
            decreases entries.len() - i,
        {
            let entry = &entries[i];
            proof {
                assert(entries@.take(i + 1).drop_last() =~= entries@.take(i as int));
                assert(entries@.take(i + 1).last() == entries@[i as int]);
            }
            if PathProvider::is_launchable(entry) && !entry.name.as_str().is_empty() {
                let base_score = match self.history.get(entry.name.as_str()) {
                    Some(count) => count,
                    None => 0,
                };
                let ghost before = items@;
                let item = ProviderItem {
                    name: entry.name.clone(),
                    provider_type: ProviderType::PATH,
                    executable: Some(entry.name.clone()),
                    base_score,
                };
                items.push(item);
                assert(item_views(items@) =~= item_views(before).push(
                    path_item(entry.name@, self.history()),
                ));
            }
            i = i + 1;
        }
        assert(entries@.take(entries@.len() as int) =~= entries@);
        proof {
            assert forall|k: int| 0 <= k < items@.len() implies (#[trigger] items@[k]).name@.len()
                > 0 by {
                lemma_path_items_named(entries@, self.history(), k);
                assert(item_views(items@)[k] == items@[k]@);
            }
        }
        items
    }
}

} // verus!
