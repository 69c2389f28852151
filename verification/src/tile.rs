use vstd::prelude::*;

verus! {

/// Why an attempt to open a tile was rejected.
#[derive(Clone, Copy, Debug, PartialEq, Eq, Structural)]
pub enum OpenError {
    Flagged,
    Opened,
    Mine,
}

/// What a tile holds: the count of adjacent mines, or a mine.
#[derive(Clone, Copy, Debug, PartialEq, Eq, Structural)]
pub enum Value {
    Number(i32),
    Mine,
}

/// How a tile is presented: already opened, still closed, or flagged.
#[derive(Clone, Copy, Debug, PartialEq, Eq, Structural)]
pub enum State {
    Opened,
    Closed,
    Flagged,
}

/// One cell of the board: a value fixed at generation time and a
/// visibility state that changes only through `open` and `flag`.
#[derive(Clone, Copy, Debug, PartialEq, Eq, Structural)]
pub struct Tile {
    value: Value,
    state: State,
}

impl Default for Tile {
    /// A fresh tile: no adjacent mines recorded yet, still closed.
    fn default() -> (t: Self)
        ensures
            t.spec_value() == Value::Number(0),
            t.spec_state() == State::Closed,
    {
        Self { value: Value::Number(0), state: State::Closed }
    }
}

impl Tile {
    /// The tile's value, for use in contracts.
    pub closed spec fn spec_value(&self) -> Value {
        self.value
    }

    /// The tile's visibility state, for use in contracts.
    pub closed spec fn spec_state(&self) -> State {
        self.state
    }

    /// The tile after one flag toggle: closed and flagged swap, an opened
    /// tile stays as it is.
    pub closed spec fn spec_flag(self) -> Tile {
        match self.state {
            State::Closed => Tile { value: self.value, state: State::Flagged },
            State::Flagged => Tile { value: self.value, state: State::Closed },
            State::Opened => self,
        }
    }

    #[verifier::when_used_as_spec(spec_value)]
    pub fn value(&self) -> (v: Value)
        ensures
            v == self.spec_value(),
    {
        self.value
    }

    #[verifier::when_used_as_spec(spec_state)]
    pub fn state(&self) -> (s: State)
        ensures
            s == self.spec_state(),
    {
        self.state
    }

    /// Reveal the tile. A mine refuses with `Mine`; a flagged tile must be
    /// unflagged first; re-opening is rejected so that callers can tell a
    /// fresh reveal from a redundant one. Only a closed non-mine tile opens.
    pub fn open(&mut self) -> (r: Result<(), OpenError>)
        ensures
            final(self).spec_value() == old(self).spec_value(),
            old(self).spec_value() == Value::Mine ==> r == Err::<(), OpenError>(OpenError::Mine)
                && *final(self) == *old(self),
            old(self).spec_value() != Value::Mine && old(self).spec_state() == State::Flagged
                ==> r == Err::<(), OpenError>(OpenError::Flagged) && *final(self) == *old(self),
            old(self).spec_value() != Value::Mine && old(self).spec_state() == State::Opened
                ==> r == Err::<(), OpenError>(OpenError::Opened) && *final(self) == *old(self),
            old(self).spec_value() != Value::Mine && old(self).spec_state() == State::Closed
                ==> r == Ok::<(), OpenError>(()) && final(self).spec_state() == State::Opened,
    {
        if self.value == Value::Mine {
            return Err(OpenError::Mine);
        }

        match self.state {
            State::Closed => self.state = State::Opened,
            State::Flagged => return Err(OpenError::Flagged),
            State::Opened => return Err(OpenError::Opened),
        }

        Ok(())
    }

    /// Toggle the flag: a closed tile becomes flagged, a flagged one closed,
    /// an opened one is left alone. Always succeeds.
    pub fn flag(&mut self)
        ensures
            *final(self) == old(self).spec_flag(),
    {
        if self.state == State::Closed {
            self.state = State::Flagged;
        } else if self.state == State::Flagged {
            self.state = State::Closed;
        }
    }

    /// Overwrite the value, leaving the visibility state alone. Used while
    /// the board lays out mines and adjacency counts.
    pub fn replace_value(&mut self, value: Value)
        ensures
            final(self).spec_value() == value,
            final(self).spec_state() == old(self).spec_state(),
    {
        self.value = value;
    }
}

/// Law: toggling a flag twice restores the tile exactly, and toggling an
/// opened tile changes nothing at all.
pub proof fn lemma_flag_involutive(t: Tile)
    ensures
        t.spec_flag().spec_flag() == t,
        t.spec_state() == State::Opened ==> t.spec_flag() == t,
{
}

/// What one flag toggle does: closed and flagged swap, an opened tile
/// stays as it is, and the value is never touched.
pub proof fn lemma_flag_spec(t: Tile)
    ensures
        t.spec_flag().spec_value() == t.spec_value(),
        t.spec_state() == State::Closed ==> t.spec_flag().spec_state() == State::Flagged,
        t.spec_state() == State::Flagged ==> t.spec_flag().spec_state() == State::Closed,
        t.spec_state() == State::Opened ==> t.spec_flag() == t,
{
}

} // verus!
