//! The tags that open items and entries.
use vstd::prelude::*;

verus! {

/// Type of top-level item in the dump.
#[derive(Debug, Clone, Copy, PartialEq, Eq, Structural)]
pub enum DumpItem {
    End,
    Ps4Part,
}

/// The tag byte of each item type.
pub open spec fn dump_item_tag(i: DumpItem) -> u8 {
    match i {
        DumpItem::End => 0,
        DumpItem::Ps4Part => 1,
    }
}

impl DumpItem {
    /// The item type that `v` tags, if any.
    pub fn from_u8(v: u8) -> (r: Option<DumpItem>)
        ensures
            match r {
                Some(i) => dump_item_tag(i) == v,
                None => v > 1,
            },
    {
        match v {
            0 => Some(DumpItem::End),
            1 => Some(DumpItem::Ps4Part),
            _ => None,
        }
    }

    pub fn to_u8(self) -> (r: u8)
        ensures
            r == dump_item_tag(self),
    {
        match self {
            DumpItem::End => 0,
            DumpItem::Ps4Part => 1,
        }
    }

    /// A human-readable name of the item type.
    pub fn name(self) -> (r: &'static str)
        ensures
            self == DumpItem::End ==> r@ == ""@,
            self == DumpItem::Ps4Part ==> r@ == "PlayStation 4 partition"@,
    {
        match self {
            DumpItem::End => "",
            DumpItem::Ps4Part => "PlayStation 4 partition",
        }
    }
}

/// Type of entry in a partition item.
#[derive(Debug, Clone, Copy, PartialEq, Eq, Structural)]
pub enum PartItem {
    End,
    Directory,
    File,
}

/// The tag byte of each entry type.
pub open spec fn part_item_tag(i: PartItem) -> u8 {
    match i {
        PartItem::End => 0,
        PartItem::Directory => 1,
        PartItem::File => 2,
    }
}

impl PartItem {
    /// The entry type that `v` tags, if any.
    pub fn from_u8(v: u8) -> (r: Option<PartItem>)
        ensures
            match r {
                Some(i) => part_item_tag(i) == v,
                None => v > 2,
            },
    {
        match v {
            0 => Some(PartItem::End),
            1 => Some(PartItem::Directory),
            2 => Some(PartItem::File),
            _ => None,
        }
    }

    pub fn to_u8(self) -> (r: u8)
        ensures
            r == part_item_tag(self),
    {
        match self {
            PartItem::End => 0,
            PartItem::Directory => 1,
            PartItem::File => 2,
        }
    }
}

} // verus!
