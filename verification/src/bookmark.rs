//! Named bookmarks: places in the reader's buffer that the reader can go
//! back to.
//!
//! The manager owns the bookmarks. It knows each by its name, and holds for
//! each a position in the buffer. A name is bound at most once.

use vstd::prelude::*;
use vstd::string::*;

verus! {

/// Why a bookmark could not be used.
#[derive(Debug, PartialEq, Eq)]
pub enum BookmarkError {
    /// No bookmark of that name is live.
    UnknownBookmark { name: String },
}

impl BookmarkError {
    /// What the error says, in words.
    pub open spec fn message_text(self) -> Seq<char> {
        match self {
            BookmarkError::UnknownBookmark { name } => "no bookmark has the name "@ + name@,
        }
    }

    /// Say in words what went wrong.
    pub fn message(&self) -> (text: String)
        ensures
            text@ == self.message_text(),
    {
        match self {
            BookmarkError::UnknownBookmark { name } => {
                let mut text = "no bookmark has the name ".to_owned();
                text.append(name.as_str());
                text
            },
        }
    }
}

/// The entry at place `i` has the name `name`.
pub open spec fn named(names: Seq<String>, name: Seq<char>, i: int) -> bool {
    0 <= i < names.len() && names[i]@ == name
}

/// Some entry has the name `name`.
pub open spec fn is_bound(names: Seq<String>, name: Seq<char>) -> bool {
    exists|i: int| named(names, name, i)
}

/// The place of an entry with the name `name`.
pub open spec fn slot(names: Seq<String>, name: Seq<char>) -> int {
    choose|i: int| named(names, name, i)
}

/// No two entries have the same name.
pub open spec fn unique(names: Seq<String>) -> bool {
    forall|i: int, j: int|
        0 <= i < j < names.len() ==> (#[trigger] names[i])@ != (#[trigger] names[j])@
}

/// The positions by name.
pub open spec fn marks(names: Seq<String>, positions: Seq<usize>) -> Map<Seq<char>, usize> {
    Map::new(|name: Seq<char>| is_bound(names, name), |name: Seq<char>| positions[slot(names, name)])
}

/// The entry at place `i` is found under its name.
proof fn lemma_lookup(names: Seq<String>, positions: Seq<usize>, i: int)
    requires
        unique(names),
        0 <= i < names.len(),
    ensures
        is_bound(names, names[i]@),
        slot(names, names[i]@) == i,
        marks(names, positions).contains_key(names[i]@),
        marks(names, positions)[names[i]@] == positions[i],
{
    assert(named(names, names[i]@, i));
}

/// The bookmarks of a reader, by name.
#[derive(Debug)]
pub struct BookmarkManager {
    names: Vec<String>,
    positions: Vec<usize>,
}

impl View for BookmarkManager {
    type V = Map<Seq<char>, usize>;

    closed spec fn view(&self) -> Map<Seq<char>, usize> {
        marks(self.names@, self.positions@)
    }
}

impl BookmarkManager {
    /// The manager holds a position for each name, and no name twice.
    pub closed spec fn wf(&self) -> bool {
        &&& self.names@.len() == self.positions@.len()
        &&& unique(self.names@)
    }

    /// A manager without bookmarks.
    pub fn new() -> (manager: BookmarkManager)
        ensures
            manager.wf(),
            manager@ == Map::<Seq<char>, usize>::empty(),
    {
        BookmarkManager { names: Vec::new(), positions: Vec::new() }
    }

    /// The place of the entry with the name `name`, if there is one.
    fn find(&self, name: &str) -> (place: Option<usize>)
        requires
            self.wf(),
        ensures
            match place {
                Some(i) => named(self.names@, name@, i as int),
                None => !is_bound(self.names@, name@),
            },
    {
        let key = name.to_owned();
        let mut i: usize = 0;
        while i < self.names.len()
            invariant
                i <= self.names@.len(),
                key@ == name@,
                forall|j: int| 0 <= j < i ==> !named(self.names@, name@, j),
            decreases self.names@.len() - i,
        {
            if self.names[i] == key {
                return Some(i);
            }
            i = i + 1;
        }
        None
    }

    /// The position of the bookmark `name`, if it is live.
    pub fn position(&self, name: &str) -> (position: Option<usize>)
        requires
            self.wf(),
        ensures
            match position {
                Some(p) => self@.contains_key(name@) && self@[name@] == p,
                None => !self@.contains_key(name@),
            },
    {
        match self.find(name) {
            Some(i) => Some(self.positions[i]),
            None => None,
        }
    }

    /// Bind the bookmark `name` to `position`, whether it was live or not.
    pub fn set(&mut self, name: &str, position: usize)
        requires
            old(self).wf(),
        ensures
            final(self).wf(),
            final(self)@ == old(self)@.insert(name@, position),
    {
        let ghost names = self.names@;
        let ghost positions = self.positions@;
        match self.find(name) {
            Some(i) => {
                self.positions.set(i, position);
            },
            None => {
                self.names.push(name.to_owned());
                self.positions.push(position);
                proof {
                    let new_names = self.names@;
                    let after = self.positions@;
                    let last = names.len() as int;
                    assert forall|i: int, j: int| 0 <= i < j < new_names.len() implies (
                    #[trigger] new_names[i])@ != (#[trigger] new_names[j])@ by {
                        if j == last {
                            assert(!named(names, name@, i));
                        }
                    }
                    lemma_lookup(new_names, after, last);
                    assert forall|k: Seq<char>| k != name@ implies (is_bound(new_names, k) == is_bound(
                        names,
                        k,
                    )) && (is_bound(names, k) ==> marks(new_names, after)[k] == marks(
                        names,
                        positions,
                    )[k]) by {
                        if is_bound(new_names, k) {
                            let j = slot(new_names, k);
                            assert(named(names, k, j));
                        }
                        if is_bound(names, k) {
                            let j = slot(names, k);
                            lemma_lookup(new_names, after, j);
                        }
                    }
                }
            },
        }
    }

    /// Release the bookmark `name`, and return the position that it had, if
    /// it was live.
    pub fn remove(&mut self, name: &str) -> (position: Option<usize>)
        requires
            old(self).wf(),
        ensures
            final(self).wf(),
            final(self)@ == old(self)@.remove(name@),
            match position {
                Some(p) => old(self)@.contains_key(name@) && old(self)@[name@] == p,
                None => !old(self)@.contains_key(name@),
            },
    {
        let ghost names = self.names@;
        let ghost positions = self.positions@;
        match self.find(name) {
            Some(i) => {
                let _ = self.names.remove(i);
                let position = self.positions.remove(i);
                proof {
                    let new_names = self.names@;
                    let after = self.positions@;
                    assert forall|k: Seq<char>| !is_bound(new_names, name@) && (k != name@ ==> (is_bound(
                        new_names,
                        k,
                    ) == is_bound(names, k)) && (is_bound(names, k) ==> marks(new_names, after)[k] == marks(
                        names,
                        positions,
                    )[k])) by {
                        if k != name@ {
                            if is_bound(new_names, k) {
                                let j = slot(new_names, k);
                                let j0 = if j < i {
                                    j
                                } else {
                                    j + 1
                                };
                                assert(named(names, k, j0));
                            }
                            if is_bound(names, k) {
                                let j0 = slot(names, k);
                                let j = if j0 < i {
                                    j0
                                } else {
                                    j0 - 1
                                };
                                lemma_lookup(new_names, after, j);
                            }
                        }
                    }
                }
                Some(position)
            },
            None => None,
        }
    }

    /// The least position of a live bookmark, if any is live.
    pub fn earliest(&self) -> (least: Option<usize>)
        requires
            self.wf(),
        ensures
            match least {
                Some(p) => (exists|name: Seq<char>|
                    self@.contains_key(name) && #[trigger] self@[name] == p) && forall|
                    name: Seq<char>,
                |
                    self@.contains_key(name) ==> p <= #[trigger] self@[name],
                None => forall|name: Seq<char>| !self@.contains_key(name),
            },
    {
        let mut least: Option<usize> = None;
        let mut i: usize = 0;
        while i < self.positions.len()
            invariant
                i <= self.positions@.len(),
                self.wf(),
                match least {
                    Some(p) => (exists|j: int| 0 <= j < i && #[trigger] self.positions@[j] == p)
                        && forall|j: int| 0 <= j < i ==> p <= #[trigger] self.positions@[j],
                    None => i == 0,
                },
            decreases self.positions@.len() - i,
        {
            let here = self.positions[i];
            let lower = match least {
                Some(p) => here < p,
                None => true,
            };
            if lower {
                least = Some(here);
            }
            i = i + 1;
        }
        proof {
            let names = self.names@;
            let positions = self.positions@;
            match least {
                Some(p) => {
                    let j = choose|j: int| 0 <= j < i && #[trigger] self.positions@[j] == p;
                    lemma_lookup(names, positions, j);
                    assert(self@.contains_key(names[j]@) && self@[names[j]@] == p);
                },
                None => {},
            }
        }
        least
    }

    /// Move every bookmark back by `by` positions.
    pub fn shift(&mut self, by: usize)
        requires
            old(self).wf(),
            forall|name: Seq<char>| old(self)@.contains_key(name) ==> by <= #[trigger] old(self)@[name],
        ensures
            final(self).wf(),
            final(self)@.dom() == old(self)@.dom(),
            forall|name: Seq<char>|
                old(self)@.contains_key(name) ==> #[trigger] final(self)@[name] == old(self)@[name]
                    - by,
    {
        let ghost names = self.names@;
        let ghost positions = self.positions@;
        proof {
            assert forall|j: int| 0 <= j < positions.len() implies by <= #[trigger] positions[j] by {
                lemma_lookup(names, positions, j);
                assert(by <= old(self)@[names[j]@]);
            }
        }
        let mut i: usize = 0;
        while i < self.positions.len()
            invariant
                i <= self.positions@.len(),
                self.names@ == names,
                self.positions@.len() == positions.len(),
                names.len() == positions.len(),
                forall|j: int| 0 <= j < positions.len() ==> by <= #[trigger] positions[j],
                forall|j: int| 0 <= j < i ==> #[trigger] self.positions@[j] == positions[j] - by,
                forall|j: int|
                    i <= j < positions.len() ==> #[trigger] self.positions@[j] == positions[j],
            decreases self.positions@.len() - i,
        {
            let here = self.positions[i];
            self.positions.set(i, here - by);
            i = i + 1;
        }
    }
}

} // verus!
