//! Canonical tag records and the derived tag indexes.
//!
//! A tag is identified by a small integer id and carries a hierarchical path
//! (a list of string segments) plus a display color. Tags are soft-deleted:
//! a tombstoned record keeps its id so references stay resolvable.

use vstd::prelude::*;

use crate::assoc::{kv_map, skv_map};

verus! {

/// Identifier of a tag; allocated densely and never reused.
#[derive(Clone, Copy, Debug, PartialEq, Eq, Structural)]
pub struct TagId(pub u32);

impl Default for TagId {
    fn default() -> (r: TagId)
        ensures
            r.0 == 0,
    {
        TagId(0)
    }
}

impl From<u32> for TagId {
    fn from(value: u32) -> (r: TagId) {
        TagId(value)
    }
}

impl vstd::std_specs::convert::FromSpecImpl<u32> for TagId {
    open spec fn obeys_from_spec() -> bool {
        true
    }

    open spec fn from_spec(value: u32) -> TagId {
        TagId(value)
    }
}

/// Display colors a tag can carry.
#[derive(Clone, Copy, Debug, PartialEq, Eq, Structural)]
pub enum TagColors {
    Red,
    Blue,
    Green,
    Yellow,
    Purple,
    Gray,
}

/// Lower-cases one character, folding only the ASCII uppercase range.
pub open spec fn lower_char(c: char) -> char {
    if 65 <= c as u32 && c as u32 <= 90 {
        (((c as u32) + 32) as u8) as char
    } else {
        c
    }
}

/// Lower-cases a character sequence, folding only ASCII uppercase letters.
pub open spec fn lower_chars(s: Seq<char>) -> Seq<char> {
    s.map_values(|c: char| lower_char(c))
}

/// Folds one character to ASCII lower case.
fn lower_char_exec(c: char) -> (r: char)
    ensures
        r == lower_char(c),
{
    let u = c as u32;
    if 65 <= u && u <= 90 {
        ((u + 32) as u8) as char
    } else {
        c
    }
}

/// True when the two strings are equal after ASCII-case folding.
fn str_eq_ignore_ascii_case(a: &str, b: &str) -> (r: bool)
    ensures
        r == (lower_chars(a@) == lower_chars(b@)),
{
    let alen = a.unicode_len();
    let blen = b.unicode_len();
    if alen != blen {
        assert(lower_chars(a@).len() == a@.len());
        assert(lower_chars(b@).len() == b@.len());
        return false;
    }
    let mut i: usize = 0;
    while i < alen
        invariant
            i <= alen,
            alen == a@.len(),
            blen == b@.len(),
            alen == blen,
            forall|j: int| 0 <= j < i ==> lower_char(a@[j]) == lower_char(b@[j]),
        decreases alen - i,
    {
        let ac = a.get_char(i);
        let bc = b.get_char(i);
        if lower_char_exec(ac) != lower_char_exec(bc) {
            assert(lower_chars(a@)[i as int] != lower_chars(b@)[i as int]);
            return false;
        }
        i = i + 1;
    }
    assert(lower_chars(a@) =~= lower_chars(b@));
    true
}

impl TagColors {
    /// Parses a color name, ignoring ASCII case; unknown names are rejected.
    pub fn from_name(s: &str) -> (r: Result<TagColors, ()>)
        ensures
            r == Self::spec_from_name(s@),
    {
        proof {
            reveal_strlit("red");
            reveal_strlit("blue");
            reveal_strlit("green");
            reveal_strlit("yellow");
            reveal_strlit("purple");
            reveal_strlit("gray");
            assert(lower_chars("red"@) =~= "red"@);
            assert(lower_chars("blue"@) =~= "blue"@);
            assert(lower_chars("green"@) =~= "green"@);
            assert(lower_chars("yellow"@) =~= "yellow"@);
            assert(lower_chars("purple"@) =~= "purple"@);
            assert(lower_chars("gray"@) =~= "gray"@);
        }
        if str_eq_ignore_ascii_case(s, "red") {
            Ok(TagColors::Red)
        } else if str_eq_ignore_ascii_case(s, "blue") {
            Ok(TagColors::Blue)
        } else if str_eq_ignore_ascii_case(s, "green") {
            Ok(TagColors::Green)
        } else if str_eq_ignore_ascii_case(s, "yellow") {
            Ok(TagColors::Yellow)
        } else if str_eq_ignore_ascii_case(s, "purple") {
            Ok(TagColors::Purple)
        } else if str_eq_ignore_ascii_case(s, "gray") {
            Ok(TagColors::Gray)
        } else {
            Err(())
        }
    }

    /// The color a name denotes, after ASCII-case folding; `Err` for others.
    pub open spec fn spec_from_name(s: Seq<char>) -> Result<TagColors, ()> {
        let l = lower_chars(s);
        if l == "red"@ {
            Ok(TagColors::Red)
        } else if l == "blue"@ {
            Ok(TagColors::Blue)
        } else if l == "green"@ {
            Ok(TagColors::Green)
        } else if l == "yellow"@ {
            Ok(TagColors::Yellow)
        } else if l == "purple"@ {
            Ok(TagColors::Purple)
        } else if l == "gray"@ {
            Ok(TagColors::Gray)
        } else {
            Err(())
        }
    }

    /// The canonical lower-case name of each color.
    pub open spec fn spec_name(self) -> Seq<char> {
        match self {
            TagColors::Red => "red"@,
            TagColors::Blue => "blue"@,
            TagColors::Green => "green"@,
            TagColors::Yellow => "yellow"@,
            TagColors::Purple => "purple"@,
            TagColors::Gray => "gray"@,
        }
    }

    /// Returns the canonical lower-case name of the color.
    pub fn name(&self) -> (r: &'static str)
        ensures
            r@ == self.spec_name(),
    {
        match self {
            TagColors::Red => "red",
            TagColors::Blue => "blue",
            TagColors::Green => "green",
            TagColors::Yellow => "yellow",
            TagColors::Purple => "purple",
            TagColors::Gray => "gray",
        }
    }
}

impl core::str::FromStr for TagColors {
    type Err = ();

    fn from_str(s: &str) -> Result<Self, Self::Err> {
        TagColors::from_name(s)
    }
}

/// A canonical tag record: id, tombstone flag, hierarchical path, color.
#[derive(Debug)]
pub struct TagRecord {
    pub id: TagId,
    pub deleted: bool,
    pub path: Vec<String>,
    pub color: TagColors,
}

/// The mathematical content of a [`TagRecord`].
pub struct TagView {
    pub id: u32,
    pub deleted: bool,
    pub path: Seq<Seq<char>>,
    pub color: TagColors,
}

impl View for TagRecord {
    type V = TagView;

    open spec fn view(&self) -> TagView {
        TagView {
            id: self.id.0,
            deleted: self.deleted,
            path: self.path.deep_view(),
            color: self.color,
        }
    }
}

impl Clone for TagRecord {
    fn clone(&self) -> (r: Self)
        ensures
            r@ == self@,
    {
        let r = TagRecord {
            id: self.id,
            deleted: self.deleted,
            path: self.path.clone(),
            color: self.color,
        };
        proof {
            assert(r.path.deep_view() =~= self.path.deep_view());
        }
        r
    }
}

impl TagRecord {
    /// Creates a live record; a missing color defaults to gray.
    pub fn new(id: TagId, path: Vec<String>, color: Option<TagColors>) -> (r: TagRecord)
        ensures
            r.id == id,
            !r.deleted,
            r.path == path,
            r.color == if color is Some {
                color->0
            } else {
                TagColors::Gray
            },
    {
        TagRecord {
            id,
            deleted: false,
            path,
            color: match color {
                Some(c) => c,
                None => TagColors::Gray,
            },
        }
    }

    /// The tag's id.
    pub fn get_id(&self) -> (r: &TagId)
        ensures
            r == self.id,
    {
        &self.id
    }

    /// Whether the record is tombstoned.
    pub fn get_deleted(&self) -> (r: &bool)
        ensures
            r == self.deleted,
    {
        &self.deleted
    }

    /// The tag's hierarchical path.
    pub fn get_path(&self) -> (r: &Vec<String>)
        ensures
            r == self.path,
    {
        &self.path
    }

    /// The tag's display color.
    pub fn get_color(&self) -> (r: &TagColors)
        ensures
            r == self.color,
    {
        &self.color
    }
}


impl DeepView for TagRecord {
    type V = TagView;

    open spec fn deep_view(&self) -> TagView {
        self@
    }
}

/// Derived tag lookup index: normalized path string to tag id. Rebuilt from
/// the live tags; stale after any tag mutation until the next rebuild.
#[derive(Debug)]
pub struct TagPathIndex {
    pub(crate) by_path: Vec<(String, u32)>,
}


/// Derived hierarchy index: each live tag's parent (none for roots), and the
/// inverse children adjacency. Rebuilt from the live tags' paths.
#[derive(Debug)]
pub struct TagHierarchyIndex {
    pub(crate) parent: Vec<(u32, Option<u32>)>,
    pub(crate) children: Vec<(u32, Vec<TagId>)>,
}


/// Derived membership index: per tag, the bitmap of directly tagged live
/// nodes, and the bitmap of nodes tagged with a strict descendant.
#[derive(Debug)]
pub struct TagMembershipIndex {
    pub(crate) direct_nodes: Vec<(u32, roaring::RoaringBitmap)>,
    pub(crate) subtree_nodes: Vec<(u32, roaring::RoaringBitmap)>,
}


} // verus!
