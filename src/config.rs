//! The statements of a configuration file, their identity and their canonical text.
use vstd::prelude::*;
use crate::text::{chars_lt, chars_of, compare_chars};
use std::cmp::Ordering;

verus! {

/// One statement of a configuration file.
#[derive(Debug, Clone, PartialEq, Eq)]
pub enum ConfigItem {
    /// A bare directive, such as `unbindall`.
    Command(String),
    /// `bind "<key>" "<binding>"`.
    Bind(String, String),
    /// A console variable and its value, `<name> "<value>"`.
    Cvar(String, String),
}

/// The mathematical value of a [`ConfigItem`].
pub enum ItemModel {
    Command(Seq<char>),
    Bind(Seq<char>, Seq<char>),
    Cvar(Seq<char>, Seq<char>),
}

impl View for ConfigItem {
    type V = ItemModel;

    open spec fn view(&self) -> ItemModel {
        match self {
            ConfigItem::Command(n) => ItemModel::Command(n@),
            ConfigItem::Bind(k, b) => ItemModel::Bind(k@, b@),
            ConfigItem::Cvar(n, v) => ItemModel::Cvar(n@, v@),
        }
    }
}

/// The group of an item in the output order: commands, then binds, then console variables.
pub open spec fn rank(m: ItemModel) -> int {
    match m {
        ItemModel::Command(_) => 0,
        ItemModel::Bind(_, _) => 1,
        ItemModel::Cvar(_, _) => 2,
    }
}

/// The text that names an entry: a command's name, a bind's key, a variable's name.
pub open spec fn identity(m: ItemModel) -> Seq<char> {
    match m {
        ItemModel::Command(n) => n,
        ItemModel::Bind(k, _) => k,
        ItemModel::Cvar(n, _) => n,
    }
}

/// What makes two items the same entry: their group and their identity, not their payload.
pub open spec fn key(m: ItemModel) -> (int, Seq<char>) {
    (rank(m), identity(m))
}

/// The output order: by group, then lexically by identity.
pub open spec fn precedes(a: ItemModel, b: ItemModel) -> bool {
    rank(a) < rank(b) || (rank(a) == rank(b) && chars_lt(identity(a), identity(b)))
}

pub open spec fn bind_word() -> Seq<char> {
    seq!['b', 'i', 'n', 'd']
}

/// The canonical line of an item.
pub open spec fn render(m: ItemModel) -> Seq<char> {
    match m {
        ItemModel::Command(n) => n,
        ItemModel::Bind(k, b) => bind_word() + seq![' ', '"'] + k + seq!['"', ' ', '"'] + b
            + seq!['"'],
        ItemModel::Cvar(n, v) => n + seq![' ', '"'] + v + seq!['"'],
    }
}

impl ConfigItem {
    pub fn rank(&self) -> (r: u8)
        ensures
            r as int == rank(self@),
    {
        match self {
            ConfigItem::Command(_) => 0,
            ConfigItem::Bind(_, _) => 1,
            ConfigItem::Cvar(_, _) => 2,
        }
    }

    pub fn identity(&self) -> (r: &String)
        ensures
            r@ == identity(self@),
    {
        match self {
            ConfigItem::Command(n) => n,
            ConfigItem::Bind(k, _) => k,
            ConfigItem::Cvar(n, _) => n,
        }
    }

    /// Compares two items by group and identity, ignoring their payload.
    pub fn cmp_identity(&self, other: &ConfigItem) -> (r: Ordering)
        ensures
            (r == Ordering::Less) == precedes(self@, other@),
            (r == Ordering::Equal) == (key(self@) == key(other@)),
            (r == Ordering::Greater) == precedes(other@, self@),
    {
        let ra = self.rank();
        let rb = other.rank();
        if ra < rb {
            Ordering::Less
        } else if ra > rb {
            Ordering::Greater
        } else {
            let a = chars_of(self.identity().as_str());
            let b = chars_of(other.identity().as_str());
            compare_chars(&a, &b)
        }
    }

    /// The canonical line of this item: `name`, `bind "key" "binding"` or `name "value"`.
    pub fn to_line(&self) -> (r: String)
        ensures
            r@ == render(self@),
    {
        proof {
            reveal_strlit("bind \"");
            reveal_strlit(" \"");
            reveal_strlit("\" \"");
            reveal_strlit("\"");
        }
        match self {
            ConfigItem::Command(n) => n.clone(),
            ConfigItem::Bind(k, b) => {
                let mut s = String::from_str("bind \"");
                s.append(k.as_str());
                s.append("\" \"");
                s.append(b.as_str());
                s.append("\"");
                assert(s@ =~= render(self@));
                s
            },
            ConfigItem::Cvar(n, v) => {
                let mut s = n.clone();
                s.append(" \"");
                s.append(v.as_str());
                s.append("\"");
                assert(s@ =~= render(self@));
                s
            },
        }
    }
}

} // verus!
