//! A reader that streams characters lazily from a source, and can go back to
//! a bookmark.
//!
//! The reader asks its source for a character only when it is asked for one
//! that it does not hold. It holds no character from before the earliest
//! place that is still needed: the place it reads at, or the earliest live
//! bookmark, whichever comes first. What the reader does is stated over its
//! model, [`ReaderModel`]: the whole stream, the offset of the next
//! character, and the offsets of the bookmarks.

use crate::bookmark::BookmarkError;
use crate::bookmark::BookmarkManager;
use vstd::prelude::*;
use vstd::string::*;

verus! {

/// Where the characters come from.
pub trait Source {
    /// The characters that the source has yet to hand out. A source that
    /// does not say what they are leaves them open.
    open spec fn remaining(&self) -> Seq<char> {
        arbitrary()
    }

    /// Hand out the next character, if there is one.
    fn pull(&mut self) -> (next: Option<char>)
        ensures
            next == (if old(self).remaining().len() > 0 {
                Some(old(self).remaining()[0])
            } else {
                None::<char>
            }),
            final(self).remaining() == (if old(self).remaining().len() > 0 {
                old(self).remaining().drop_first()
            } else {
                old(self).remaining()
            }),
    ;
}

/// A source that hands out the characters of a text held in memory.
#[derive(Debug)]
pub struct Text {
    chars: Vec<char>,
    position: usize,
}

impl Text {
    /// The source of the characters `chars`.
    pub fn new(chars: Vec<char>) -> (text: Text)
        ensures
            text.remaining() == chars@,
    {
        let text = Text { chars, position: 0 };
        text
    }

    /// The source of the characters of `s`.
    pub fn of(s: &str) -> (text: Text)
        ensures
            text.remaining() == s@,
    {
        let mut chars: Vec<char> = Vec::new();
        for c in it: s.chars()
            invariant
                it.seq() == s@,
                chars@ == it.seq().take(it.index() as int),
        {
            chars.push(c);
        }
        Text::new(chars)
    }
}

impl Source for Text {
    closed spec fn remaining(&self) -> Seq<char> {
        if self.position <= self.chars@.len() {
            self.chars@.skip(self.position as int)
        } else {
            Seq::empty()
        }
    }

    fn pull(&mut self) -> (next: Option<char>) {
        if self.position < self.chars.len() {
            let c = self.chars[self.position];
            self.position = self.position + 1;
            Some(c)
        } else {
            None
        }
    }
}

/// What a reader stands for.
pub struct ReaderModel {
    /// The whole stream: what was read, what is held, and what the source has
    /// yet to hand out.
    pub stream: Seq<char>,
    /// The offset in the stream of the next character.
    pub offset: nat,
    /// The offsets of the live bookmarks, by name.
    pub bookmarks: Map<Seq<char>, nat>,
}

impl ReaderModel {
    /// The next character, if the stream has not ended.
    pub open spec fn peek(self) -> Option<char> {
        if self.offset < self.stream.len() {
            Some(self.stream[self.offset as int])
        } else {
            None
        }
    }

    /// The characters that the reader has yet to hand out.
    pub open spec fn rest(self) -> Seq<char> {
        self.stream.skip(self.offset as int)
    }

    /// The stream has ended.
    pub open spec fn at_end(self) -> bool {
        self.offset >= self.stream.len()
    }

    /// The reader after it has handed out the next character, if the stream
    /// has not ended.
    pub open spec fn consume(self) -> ReaderModel {
        if self.offset < self.stream.len() {
            ReaderModel { stream: self.stream, offset: self.offset + 1, bookmarks: self.bookmarks }
        } else {
            self
        }
    }

    /// The reader with the bookmark `name` at the offset it reads at.
    pub open spec fn create_bookmark(self, name: Seq<char>) -> ReaderModel {
        ReaderModel {
            stream: self.stream,
            offset: self.offset,
            bookmarks: self.bookmarks.insert(name, self.offset),
        }
    }

    /// The reader back at the bookmark `name`, if it is live.
    pub open spec fn rewind(self, name: Seq<char>) -> ReaderModel {
        if self.bookmarks.contains_key(name) {
            ReaderModel {
                stream: self.stream,
                offset: self.bookmarks[name],
                bookmarks: self.bookmarks,
            }
        } else {
            self
        }
    }

    /// The reader without the bookmark `name`.
    pub open spec fn release(self, name: Seq<char>) -> ReaderModel {
        ReaderModel {
            stream: self.stream,
            offset: self.offset,
            bookmarks: self.bookmarks.remove(name),
        }
    }

    /// What `n` calls of `consume` hand out, one after another.
    pub open spec fn read(self, n: nat) -> Seq<Option<char>>
        decreases n,
    {
        if n == 0 {
            Seq::empty()
        } else {
            seq![self.peek()] + self.consume().read((n - 1) as nat)
        }
    }

    /// The reader after `n` calls of `consume`.
    pub open spec fn after(self, n: nat) -> ReaderModel
        decreases n,
    {
        if n == 0 {
            self
        } else {
            self.consume().after((n - 1) as nat)
        }
    }
}

/// Reading moves neither the stream nor the bookmarks.
pub proof fn lemma_reading_keeps_bookmarks(reader: ReaderModel, n: nat)
    ensures
        reader.after(n).stream == reader.stream,
        reader.after(n).bookmarks == reader.bookmarks,
    decreases n,
{
    if n > 0 {
        lemma_reading_keeps_bookmarks(reader.consume(), (n - 1) as nat);
    }
}

/// Going back to a bookmark brings the same characters again: after a
/// bookmark is set, whatever `n` calls of `consume` hand out, `n` calls hand
/// it out once more after a rewind to the bookmark.
pub proof fn lemma_bookmark_round_trip(reader: ReaderModel, name: Seq<char>, n: nat)
    ensures
        reader.create_bookmark(name).after(n).rewind(name) == reader.create_bookmark(name),
        reader.create_bookmark(name).after(n).rewind(name).read(n) == reader.create_bookmark(
            name,
        ).read(n),
{
    let marked = reader.create_bookmark(name);
    lemma_reading_keeps_bookmarks(marked, n);
}

/// A bookmark that was released cannot be gone back to: a rewind to it
/// leaves the reader where it is.
pub proof fn lemma_released_is_gone(reader: ReaderModel, name: Seq<char>)
    ensures
        !reader.release(name).bookmarks.contains_key(name),
        reader.release(name).rewind(name) == reader.release(name),
{
}

/// A reader over a source.
pub struct Reader<S: Source> {
    source: S,
    window: Vec<char>,
    cursor: usize,
    bookmarks: BookmarkManager,
    ended: bool,
    dropped: Ghost<Seq<char>>,
}

impl<S: Source> View for Reader<S> {
    type V = ReaderModel;

    closed spec fn view(&self) -> ReaderModel {
        ReaderModel {
            stream: self.dropped@ + self.window@ + self.source.remaining(),
            offset: self.dropped@.len() + self.cursor as nat,
            bookmarks: Map::new(
                |name: Seq<char>| self.bookmarks@.contains_key(name),
                |name: Seq<char>| (self.dropped@.len() + self.bookmarks@[name]) as nat,
            ),
        }
    }
}

impl<S: Source> Reader<S> {
    /// The place that the reader reads at and the bookmarks lie in the
    /// buffer.
    closed spec fn tidy(&self) -> bool {
        &&& self.bookmarks.wf()
        &&& self.cursor <= self.window@.len()
        &&& self.ended ==> self.source.remaining().len() == 0
        &&& forall|name: Seq<char>|
            self.bookmarks@.contains_key(name) ==> #[trigger] self.bookmarks@[name]
                <= self.window@.len()
    }

    /// The reader is in order, and its buffer begins at the earliest place
    /// that is still needed.
    pub closed spec fn wf(&self) -> bool {
        &&& self.tidy()
        &&& (self.cursor == 0 || exists|name: Seq<char>|
            self.bookmarks@.contains_key(name) && #[trigger] self.bookmarks@[name] == 0)
    }

    /// The offset in the stream of the first character that the reader holds.
    pub closed spec fn retained_from(&self) -> nat {
        self.dropped@.len()
    }

    /// The number of characters that the reader holds.
    pub closed spec fn buffered(&self) -> nat {
        self.window@.len()
    }

    /// The reader holds nothing from before the earliest place that is still
    /// needed: its buffer begins at the offset it reads at or at the earliest
    /// live bookmark, whichever comes first.
    pub proof fn lemma_retention(&self)
        requires
            self.wf(),
        ensures
            self.retained_from() <= self@.offset,
            forall|name: Seq<char>|
                self@.bookmarks.contains_key(name) ==> self.retained_from()
                    <= #[trigger] self@.bookmarks[name],
            self.retained_from() == self@.offset || exists|name: Seq<char>|
                self@.bookmarks.contains_key(name) && #[trigger] self@.bookmarks[name]
                    == self.retained_from(),
    {
        if self.cursor != 0 {
            let name = choose|name: Seq<char>|
                self.bookmarks@.contains_key(name) && #[trigger] self.bookmarks@[name] == 0;
            assert(self@.bookmarks.contains_key(name) && self@.bookmarks[name]
                == self.retained_from());
        }
    }

    /// The reader and its bookmarks lie within the stream, and no further
    /// from the start of the buffer than a buffer can hold.
    pub proof fn lemma_within_buffer(&self)
        requires
            self.wf(),
        ensures
            self@.offset <= self@.stream.len(),
            self@.offset <= self.retained_from() + self.buffered(),
            self.buffered() <= usize::MAX,
            forall|name: Seq<char>|
                self@.bookmarks.contains_key(name) ==> #[trigger] self@.bookmarks[name]
                    <= self@.stream.len(),
    {
        vstd::std_specs::vec::axiom_spec_len(&self.window);
    }

    /// A reader at the start of what `source` has to hand out, without
    /// bookmarks.
    pub fn new(source: S) -> (reader: Self)
        ensures
            reader.wf(),
            reader@ == (ReaderModel {
                stream: source.remaining(),
                offset: 0,
                bookmarks: Map::empty(),
            }),
    {
        let reader = Reader {
            source,
            window: Vec::new(),
            cursor: 0,
            bookmarks: BookmarkManager::new(),
            ended: false,
            dropped: Ghost(Seq::empty()),
        };
        proof {
            assert(reader@.bookmarks =~= Map::empty());
        }
        reader
    }

    /// The number of characters that the reader holds.
    pub fn held(&self) -> (n: usize)
        ensures
            n == self.buffered(),
    {
        self.window.len()
    }

    /// Let go of the characters that are needed no more.
    fn compact(&mut self)
        requires
            old(self).tidy(),
        ensures
            final(self).wf(),
            final(self)@ == old(self)@,
    {
        let needed = match self.bookmarks.earliest() {
            Some(p) => if p < self.cursor {
                p
            } else {
                self.cursor
            },
            None => self.cursor,
        };
        if needed > 0 {
            let ghost before = self.window@;
            let tail = self.window.split_off(needed);
            self.window = tail;
            self.cursor = self.cursor - needed;
            self.bookmarks.shift(needed);
            proof {
                self.dropped@ = self.dropped@ + before.subrange(0, needed as int);
                assert(self@.stream =~= old(self)@.stream);
                assert(self@.bookmarks =~= old(self)@.bookmarks);
                if self.cursor != 0 {
                    let name = choose|name: Seq<char>|
                        old(self).bookmarks@.contains_key(name) && #[trigger] old(
                            self,
                        ).bookmarks@[name] == needed;
                    assert(self.bookmarks@[name] == 0);
                }
            }
        }
    }

    /// The next character, if the stream has not ended. The reader stays
    /// where it is.
    pub fn peek(&mut self) -> (next: Option<char>)
        requires
            old(self).wf(),
        ensures
            final(self).wf(),
            final(self)@ == old(self)@,
            next == old(self)@.peek(),
    {
        self.fetch()
    }

    /// As `peek`; the character that it returns is then held in the buffer.
    fn fetch(&mut self) -> (next: Option<char>)
        requires
            old(self).wf(),
        ensures
            final(self).wf(),
            final(self)@ == old(self)@,
            next == old(self)@.peek(),
            next is Some ==> final(self).cursor < final(self).window@.len(),
            final(self).cursor == old(self).cursor,
            final(self).bookmarks == old(self).bookmarks,
    {
        if self.cursor < self.window.len() {
            Some(self.window[self.cursor])
        } else if self.ended {
            None
        } else {
            match self.source.pull() {
                Some(c) => {
                    self.window.push(c);
                    proof {
                        assert(self@.stream =~= old(self)@.stream);
                    }
                    Some(c)
                },
                None => {
                    self.ended = true;
                    None
                },
            }
        }
    }

    /// Whether the stream has ended.
    pub fn is_at_end(&mut self) -> (ended: bool)
        requires
            old(self).wf(),
        ensures
            final(self).wf(),
            final(self)@ == old(self)@,
            ended == old(self)@.at_end(),
    {
        self.peek().is_none()
    }

    /// Hand out the next character, if the stream has not ended, and move
    /// past it.
    pub fn consume(&mut self) -> (next: Option<char>)
        requires
            old(self).wf(),
        ensures
            final(self).wf(),
            final(self)@ == old(self)@.consume(),
            next == old(self)@.peek(),
    {
        let next = self.fetch();
        if next.is_some() {
            proof {
                vstd::std_specs::vec::axiom_spec_len(&self.window);
            }
            self.cursor = self.cursor + 1;
            self.compact();
        }
        next
    }

    /// Set the bookmark `name` at the place that the reader reads at. A live
    /// bookmark of that name moves there.
    pub fn create_bookmark(&mut self, name: &str)
        requires
            old(self).wf(),
        ensures
            final(self).wf(),
            final(self)@ == old(self)@.create_bookmark(name@),
    {
        self.bookmarks.set(name, self.cursor);
        proof {
            assert(self@.bookmarks =~= old(self)@.bookmarks.insert(name@, old(self)@.offset));
        }
        self.compact();
    }

    /// Go back to the bookmark `name`. Where no bookmark of that name is
    /// live, the reader stays where it is and the call fails.
    pub fn rewind(&mut self, name: &str) -> (result: Result<(), BookmarkError>)
        requires
            old(self).wf(),
        ensures
            final(self).wf(),
            final(self)@ == old(self)@.rewind(name@),
            result is Ok <==> old(self)@.bookmarks.contains_key(name@),
            result matches Err(BookmarkError::UnknownBookmark { name: unknown }) ==> unknown@
                == name@,
    {
        match self.bookmarks.position(name) {
            Some(p) => {
                self.cursor = p;
                self.compact();
                Ok(())
            },
            None => Err(BookmarkError::UnknownBookmark { name: name.to_owned() }),
        }
    }

    /// Release the bookmark `name`. Where no bookmark of that name is live,
    /// the call fails.
    pub fn release(&mut self, name: &str) -> (result: Result<(), BookmarkError>)
        requires
            old(self).wf(),
        ensures
            final(self).wf(),
            final(self)@ == old(self)@.release(name@),
            result is Ok <==> old(self)@.bookmarks.contains_key(name@),
            result matches Err(BookmarkError::UnknownBookmark { name: unknown }) ==> unknown@
                == name@,
    {
        let removed = self.bookmarks.remove(name);
        proof {
            assert(self@.bookmarks =~= old(self)@.bookmarks.remove(name@));
        }
        self.compact();
        match removed {
            Some(_) => Ok(()),
            None => Err(BookmarkError::UnknownBookmark { name: name.to_owned() }),
        }
    }
}

} // verus!
