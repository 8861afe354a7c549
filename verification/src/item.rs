//! Items and what holds them.

use vstd::prelude::*;
use vstd::string::StringExecFns;

verus! {

/// A thing that can lie on the ground or in a container.
#[derive(Debug, PartialEq, Eq)]
pub struct Item {
    pub name: String,
    pub id: String,
    pub texture_index: usize,
}

/// A holder of items.
#[derive(Debug, PartialEq, Eq)]
pub struct ItemContainer {
    pub items: Vec<Item>,
}

impl Item {
    /// Makes an item with the given name, id and picture.
    pub fn new(name: &str, id: &str, texture_index: usize) -> (item: Item)
        ensures
            item.name@ == name@,
            item.id@ == id@,
            item.texture_index == texture_index,
    {
        Item { name: String::from_str(name), id: String::from_str(id), texture_index }
    }
}

impl ItemContainer {
    /// The container that a server starts with: one loaf of bread in it.
    pub fn with_bread() -> (container: ItemContainer)
        ensures
            container.items@.len() == 1,
            container.items@[0].name@ == "Bread"@,
            container.items@[0].id@ == "bread"@,
            container.items@[0].texture_index == 1,
    {
        let mut items: Vec<Item> = Vec::new();
        items.push(Item::new("Bread", "bread", 1));
        ItemContainer { items }
    }
}

} // verus!
