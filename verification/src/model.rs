//! The item model: the two catalog entry kinds, their identity rules, and the
//! ghost models that all contracts are stated over.

use vstd::prelude::*;

verus! {

/// An installed application found on the machine.
#[derive(Debug, Clone)]
pub struct Application {
    pub id: String,
    pub name: String,
    pub path: String,
    pub usage_count: u32,
}

/// An action contributed by an installed extension.
#[derive(Debug, Clone)]
pub struct Command {
    pub id: String,
    pub name: String,
    pub extension: String,
    pub trigger: String,
    pub command_type: String,
    pub usage_count: u32,
}

/// A catalog entry: exactly one of the two kinds.
#[derive(Debug, Clone)]
pub enum SearchableItem {
    Application(Application),
    Command(Command),
}

/// Ghost mirror of a catalog entry, with every string abstracted to its
/// character sequence. Contracts speak about these models.
#[verifier::ext_equal]
pub enum ItemModel {
    App { id: Seq<char>, name: Seq<char>, path: Seq<char>, usage: u32 },
    Cmd {
        id: Seq<char>,
        name: Seq<char>,
        extension: Seq<char>,
        trigger: Seq<char>,
        kind: Seq<char>,
        usage: u32,
    },
}

pub open spec fn id_of(m: ItemModel) -> Seq<char> {
    match m {
        ItemModel::App { id, .. } => id,
        ItemModel::Cmd { id, .. } => id,
    }
}

pub open spec fn name_of(m: ItemModel) -> Seq<char> {
    match m {
        ItemModel::App { name, .. } => name,
        ItemModel::Cmd { name, .. } => name,
    }
}

pub open spec fn usage_of(m: ItemModel) -> u32 {
    match m {
        ItemModel::App { usage, .. } => usage,
        ItemModel::Cmd { usage, .. } => usage,
    }
}

/// The variant tag as the string that results carry.
pub open spec fn type_str_of(m: ItemModel) -> Seq<char> {
    if m is App {
        "application"@
    } else {
        "command"@
    }
}

/// The filesystem path, present only for applications.
pub open spec fn path_opt_of(m: ItemModel) -> Option<Seq<char>> {
    match m {
        ItemModel::App { path, .. } => Some(path),
        ItemModel::Cmd { .. } => None,
    }
}

impl View for SearchableItem {
    type V = ItemModel;

    open spec fn view(&self) -> ItemModel {
        match self {
            SearchableItem::Application(a) => ItemModel::App {
                id: a.id@,
                name: a.name@,
                path: a.path@,
                usage: a.usage_count,
            },
            SearchableItem::Command(c) => ItemModel::Cmd {
                id: c.id@,
                name: c.name@,
                extension: c.extension@,
                trigger: c.trigger@,
                kind: c.command_type@,
                usage: c.usage_count,
            },
        }
    }
}

/// The models of a sequence of entries.
pub open spec fn models(s: Seq<SearchableItem>) -> Seq<ItemModel> {
    s.map_values(|it: SearchableItem| it@)
}

/// An id is valid when it is non-empty and its namespace prefix names the
/// entry's own variant.
pub open spec fn valid_item_id(m: ItemModel) -> bool {
    &&& id_of(m).len() >= 4
    &&& if m is App {
        id_of(m).subrange(0, 4) == "app_"@
    } else {
        id_of(m).subrange(0, 4) == "cmd_"@
    }
}

impl SearchableItem {
    /// The display name, used for searching and tie-breaking.
    pub fn get_name(&self) -> (r: &str)
        ensures
            r@ == name_of(self@),
    {
        match self {
            SearchableItem::Application(a) => a.name.as_str(),
            SearchableItem::Command(c) => c.name.as_str(),
        }
    }

    /// The variant tag as a string.
    pub fn get_type_str(&self) -> (r: &str)
        ensures
            r@ == type_str_of(self@),
    {
        match self {
            SearchableItem::Application(_) => "application",
            SearchableItem::Command(_) => "command",
        }
    }
}

/// A ranked answer handed back from a search, derived from a stored entry.
#[derive(Debug, Clone)]
pub struct SearchResult {
    pub object_id: String,
    pub name: String,
    pub result_type: String,
    pub score: i64,
    pub path: Option<String>,
}

/// Ghost mirror of a search result.
#[verifier::ext_equal]
pub struct ResultModel {
    pub object_id: Seq<char>,
    pub name: Seq<char>,
    pub result_type: Seq<char>,
    pub score: i64,
    pub path: Option<Seq<char>>,
}

impl View for SearchResult {
    type V = ResultModel;

    open spec fn view(&self) -> ResultModel {
        ResultModel {
            object_id: self.object_id@,
            name: self.name@,
            result_type: self.result_type@,
            score: self.score,
            path: match self.path {
                Some(p) => Some(p@),
                None => None,
            },
        }
    }
}

/// The models of a sequence of results.
pub open spec fn result_models(s: Seq<SearchResult>) -> Seq<ResultModel> {
    s.map_values(|r: SearchResult| r@)
}

} // verus!
