//! Where the session stands: the database root, then a structure, an object
//! and a field, each level selectable only below the one above it.
use vstd::prelude::*;
use crate::metadata::{chars_of, push_chars, string_of};

verus! {

/// A selected level: its identifier and its display name.
pub type Level = ([u8; 8], String);

/// The view of a selected level.
pub open spec fn level_view(l: Option<Level>) -> Option<(Seq<u8>, Seq<char>)> {
    match l {
        None => None,
        Some((i, n)) => Some((i@, n@)),
    }
}

/// The identifier of a selected level.
pub open spec fn level_id(l: (Seq<u8>, Seq<char>)) -> Seq<u8> {
    l.0
}

/// The name of a selected level.
pub open spec fn level_name(l: (Seq<u8>, Seq<char>)) -> Seq<char> {
    l.1
}

/// The current location of a session.
pub struct DatabaseLocation {
    root_folder: Option<String>,
    current_structure: Option<Level>,
    current_object: Option<Level>,
    current_cell: Option<Level>,
}

/// The text of a location: empty without a root, `~` at the root, then
/// `structure`, `structure/object` and `structure/object: field`.
pub open spec fn location_text(
    root: bool,
    s: Option<(Seq<u8>, Seq<char>)>,
    o: Option<(Seq<u8>, Seq<char>)>,
    c: Option<(Seq<u8>, Seq<char>)>,
) -> Seq<char> {
    if !root {
        seq![]
    } else if s is None {
        seq!['~']
    } else if o is None {
        level_name(s->0)
    } else if c is None {
        level_name(s->0) + seq!['/'] + level_name(o->0)
    } else {
        level_name(s->0) + seq!['/'] + level_name(o->0) + seq![':', ' '] + level_name(c->0)
    }
}

impl DatabaseLocation {
    /// The root folder, if a database is open.
    pub closed spec fn root(&self) -> Option<Seq<char>> {
        match self.root_folder {
            None => None,
            Some(r) => Some(r@),
        }
    }

    /// The selected structure.
    pub closed spec fn structure(&self) -> Option<(Seq<u8>, Seq<char>)> {
        level_view(self.current_structure)
    }

    /// The selected object.
    pub closed spec fn object(&self) -> Option<(Seq<u8>, Seq<char>)> {
        level_view(self.current_object)
    }

    /// The selected field.
    pub closed spec fn cell(&self) -> Option<(Seq<u8>, Seq<char>)> {
        level_view(self.current_cell)
    }

    /// Nothing selected.
    pub fn new() -> (r: Self)
        ensures
            r.root() is None,
            r.structure() is None,
            r.object() is None,
            r.cell() is None,
    {
        DatabaseLocation {
            current_structure: None,
            current_object: None,
            current_cell: None,
            root_folder: None,
        }
    }

    /// Leaves the database: nothing selected.
    pub fn logout(&mut self)
        ensures
            final(self).root() is None,
            final(self).structure() is None,
            final(self).object() is None,
            final(self).cell() is None,
    {
        self.current_structure = None;
        self.current_cell = None;
        self.root_folder = None;
        self.current_object = None;
    }

    /// Selects a structure; a database must be open. The field selection is
    /// dropped.
    pub fn select_structure(&mut self, structure: Level)
        requires
            old(self).root() is Some,
        ensures
            final(self).root() == old(self).root(),
            final(self).structure() == Some((structure.0@, structure.1@)),
            final(self).object() == old(self).object(),
            final(self).cell() is None,
    {
        self.current_structure = Some(structure);
        self.current_cell = None;
    }

    /// Selects a field; an object must be selected.
    pub fn select_cell(&mut self, cell: Level)
        requires
            old(self).object() is Some,
        ensures
            final(self).root() == old(self).root(),
            final(self).structure() == old(self).structure(),
            final(self).object() == old(self).object(),
            final(self).cell() == Some((cell.0@, cell.1@)),
    {
        self.current_cell = Some(cell);
    }

    /// Selects an object; a structure must be selected.
    pub fn select_object(&mut self, object: Level)
        requires
            old(self).structure() is Some,
        ensures
            final(self).root() == old(self).root(),
            final(self).structure() == old(self).structure(),
            final(self).object() == Some((object.0@, object.1@)),
            final(self).cell() == old(self).cell(),
    {
        self.current_object = Some(object);
    }

    /// Opens a database root; the structure, object and field selections are
    /// dropped.
    pub fn select_root(&mut self, root: String)
        ensures
            final(self).root() == Some(root@),
            final(self).structure() is None,
            final(self).object() is None,
            final(self).cell() is None,
    {
        self.root_folder = Some(root);
        self.current_structure = None;
        self.current_object = None;
        self.current_cell = None;
    }

    /// Drops the field selection.
    pub fn deselect_cell(&mut self)
        ensures
            final(self).root() == old(self).root(),
            final(self).structure() == old(self).structure(),
            final(self).object() == old(self).object(),
            final(self).cell() is None,
    {
        self.current_cell = None;
    }

    /// Drops the object and field selections.
    pub fn deselect_object(&mut self)
        ensures
            final(self).root() == old(self).root(),
            final(self).structure() == old(self).structure(),
            final(self).object() is None,
            final(self).cell() is None,
    {
        self.current_cell = None;
        self.current_object = None;
    }

    /// Drops the structure, object and field selections.
    pub fn deselect_structure(&mut self)
        ensures
            final(self).root() == old(self).root(),
            final(self).structure() is None,
            final(self).object() is None,
            final(self).cell() is None,
    {
        self.current_structure = None;
        self.current_cell = None;
        self.current_object = None;
    }

    /// The root folder.
    pub fn root_folder(&self) -> (r: Option<&String>)
        ensures
            match r {
                None => self.root() is None,
                Some(s) => self.root() == Some(s@),
            },
    {
        self.root_folder.as_ref()
    }

    /// Identifier of the selected structure.
    pub fn current_structure_identifier(&self) -> (r: Option<[u8; 8]>)
        ensures
            match r {
                None => self.structure() is None,
                Some(i) => self.structure() is Some && level_id(self.structure()->0) == i@,
            },
    {
        match &self.current_structure {
            None => None,
            Some((i, _)) => Some(*i),
        }
    }

    /// Name of the selected structure.
    pub fn current_structure_pretty_name(&self) -> (r: Option<&str>)
        ensures
            match r {
                None => self.structure() is None,
                Some(n) => self.structure() is Some && level_name(self.structure()->0) == n@,
            },
    {
        match &self.current_structure {
            None => None,
            Some((_, n)) => Some(n.as_str()),
        }
    }

    /// Identifier of the selected field.
    pub fn current_cell_identifier(&self) -> (r: Option<[u8; 8]>)
        ensures
            match r {
                None => self.cell() is None,
                Some(i) => self.cell() is Some && level_id(self.cell()->0) == i@,
            },
    {
        match &self.current_cell {
            None => None,
            Some((i, _)) => Some(*i),
        }
    }

    /// Name of the selected field.
    pub fn current_cell_pretty_name(&self) -> (r: Option<&str>)
        ensures
            match r {
                None => self.cell() is None,
                Some(n) => self.cell() is Some && level_name(self.cell()->0) == n@,
            },
    {
        match &self.current_cell {
            None => None,
            Some((_, n)) => Some(n.as_str()),
        }
    }

    /// Identifier of the selected object.
    pub fn current_object_identifier(&self) -> (r: Option<[u8; 8]>)
        ensures
            match r {
                None => self.object() is None,
                Some(i) => self.object() is Some && level_id(self.object()->0) == i@,
            },
    {
        match &self.current_object {
            None => None,
            Some((i, _)) => Some(*i),
        }
    }

    /// Name of the selected object.
    pub fn current_object_pretty_name(&self) -> (r: Option<&str>)
        ensures
            match r {
                None => self.object() is None,
                Some(n) => self.object() is Some && level_name(self.object()->0) == n@,
            },
    {
        match &self.current_object {
            None => None,
            Some((_, n)) => Some(n.as_str()),
        }
    }

    /// The location as text.
    pub fn pwd(&self) -> (r: String)
        ensures
            r@ == location_text(self.root() is Some, self.structure(), self.object(), self.cell()),
    {
        let mut t: Vec<char> = Vec::new();
        if self.root_folder.is_none() {
        } else if self.current_structure.is_none() {
            t.push('~');
        } else {
            let s = self.current_structure.as_ref().unwrap();
            push_chars(&mut t, chars_of(s.1.as_str()).as_slice());
            if self.current_object.is_some() {
                let o = self.current_object.as_ref().unwrap();
                t.push('/');
                push_chars(&mut t, chars_of(o.1.as_str()).as_slice());
                if self.current_cell.is_some() {
                    let c = self.current_cell.as_ref().unwrap();
                    t.push(':');
                    t.push(' ');
                    push_chars(&mut t, chars_of(c.1.as_str()).as_slice());
                }
            }
        }
        let ghost txt = location_text(self.root() is Some, self.structure(), self.object(), self.cell());
        assert(t@ =~= txt);
        string_of(t.as_slice())
    }
}

/// Moves one level up: from a field to its object, from an object to its
/// structure, from a structure to the root; at the root nothing changes.
pub fn leave(current_location: &mut DatabaseLocation)
    ensures
        final(current_location).root() == old(current_location).root(),
        old(current_location).structure() is None ==> *final(current_location) == *old(
            current_location,
        ),
        old(current_location).structure() is Some && old(current_location).object() is None ==> (
        final(current_location).structure() is None && final(current_location).object() is None
            && final(current_location).cell() is None),
        old(current_location).structure() is Some && old(current_location).object() is Some
            && old(current_location).cell() is None ==> (final(current_location).structure()
            == old(current_location).structure() && final(current_location).object() is None
            && final(current_location).cell() is None),
        old(current_location).structure() is Some && old(current_location).object() is Some
            && old(current_location).cell() is Some ==> (final(current_location).structure()
            == old(current_location).structure() && final(current_location).object() == old(
            current_location,
        ).object() && final(current_location).cell() is None),
{
    if current_location.current_structure_identifier().is_some() {
        if current_location.current_object_identifier().is_none() {
            current_location.deselect_structure();
        } else if current_location.current_cell_identifier().is_none() {
            current_location.deselect_object();
        } else {
            current_location.deselect_cell();
        }
    }
}

} // verus!
