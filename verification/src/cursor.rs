use vstd::prelude::*;

verus! {

/// The end of a selection that moves.
#[derive(Clone, Copy, PartialEq, Eq, Debug)]
pub enum SelectionOrigin {
    Right,
    Left,
}

/// The other end.
pub open spec fn flip_spec(o: SelectionOrigin) -> SelectionOrigin {
    match o {
        SelectionOrigin::Right => SelectionOrigin::Left,
        SelectionOrigin::Left => SelectionOrigin::Right,
    }
}

impl SelectionOrigin {
    /// The other end.
    pub fn flip(self) -> (r: Self)
        ensures
            r == flip_spec(self),
    {
        match self {
            SelectionOrigin::Right => SelectionOrigin::Left,
            SelectionOrigin::Left => SelectionOrigin::Right,
        }
    }
}

/// A cursor: a single position, or a selection from a start to an end with
/// the end that moves.
#[derive(Clone, Copy, PartialEq, Eq, Debug)]
pub enum Cursor {
    Singleton(usize),
    Selection(usize, usize, SelectionOrigin),
}

/// The cursor spanning two positions: a selection with the positions in
/// order, the moving end flipped when they were given reversed, or a single
/// position when they are equal.
pub open spec fn range_spec(start: usize, end: usize, dir: SelectionOrigin) -> Cursor {
    if start < end {
        Cursor::Selection(start, end, dir)
    } else if start == end {
        Cursor::Singleton(start)
    } else {
        Cursor::Selection(end, start, flip_spec(dir))
    }
}

impl Cursor {
    /// The cursor spanning `start` and `end`.
    pub fn new_range(start: usize, end: usize, dir: SelectionOrigin) -> (r: Self)
        ensures
            r == range_spec(start, end, dir),
    {
        if start < end {
            Cursor::Selection(start, end, dir)
        } else if start == end {
            Cursor::Singleton(start)
        } else {
            Cursor::Selection(end, start, dir.flip())
        }
    }
}

/// The position a backward move transforms, if it transforms one.
pub open spec fn back_arg(c: Cursor, select: bool) -> Option<usize> {
    match c {
        Cursor::Singleton(i) => Some(i),
        Cursor::Selection(start, end, dir) => if select {
            match dir {
                SelectionOrigin::Right => Some(end),
                SelectionOrigin::Left => Some(start),
            }
        } else {
            None
        },
    }
}

/// The cursor after a backward move whose transformed position is `out`:
/// a single position starts a selection leftwards when selecting and not at
/// zero, or moves; a selection moves its moving end when selecting, or
/// collapses to its start.
pub open spec fn back_spec(c: Cursor, select: bool, out: usize) -> Cursor {
    match c {
        Cursor::Singleton(i) => if select && i > 0 {
            Cursor::Selection(out, i, SelectionOrigin::Left)
        } else {
            Cursor::Singleton(out)
        },
        Cursor::Selection(start, end, dir) => if select {
            match dir {
                SelectionOrigin::Right => range_spec(start, out, dir),
                SelectionOrigin::Left => range_spec(out, end, dir),
            }
        } else {
            Cursor::Singleton(start)
        },
    }
}

/// The cursor after a forward move whose transformed position is `out`:
/// a single position spans a selection rightwards to it when selecting, or
/// moves; a selection moves its moving end when selecting, or collapses to
/// its end.
pub open spec fn forward_spec(c: Cursor, select: bool, out: usize) -> Cursor {
    match c {
        Cursor::Singleton(i) => if select {
            range_spec(i, out, SelectionOrigin::Right)
        } else {
            Cursor::Singleton(out)
        },
        Cursor::Selection(start, end, dir) => if select {
            match dir {
                SelectionOrigin::Right => range_spec(start, out, dir),
                SelectionOrigin::Left => range_spec(out, end, dir),
            }
        } else {
            Cursor::Singleton(end)
        },
    }
}

/// The cursor with both positions brought down to `bound`.
pub open spec fn clamp_spec(c: Cursor, bound: usize) -> Cursor {
    match c {
        Cursor::Singleton(i) => Cursor::Singleton(if i < bound { i } else { bound }),
        Cursor::Selection(start, end, dir) => range_spec(
            if start < bound { start } else { bound },
            if end < bound { end } else { bound },
            dir,
        ),
    }
}

/// The cursor's state after a backward move from `c` whose transformed
/// position (when there is one) is a result of `transform`.
pub open spec fn back_moved<F: FnOnce(usize) -> usize>(
    transform: F,
    c: Cursor,
    select: bool,
    new_state: Cursor,
) -> bool {
    &&& back_arg(c, select) is Some ==> exists|out: usize|
        #[trigger] call_ensures(transform, (back_arg(c, select)->0,), out) && new_state
            == back_spec(c, select, out)
    &&& back_arg(c, select) is None ==> new_state == back_spec(c, select, 0)
}

/// The cursor's state after a forward move from `c` whose transformed
/// position (when there is one) is a result of `transform`.
pub open spec fn forward_moved<F: FnOnce(usize) -> usize>(
    transform: F,
    c: Cursor,
    select: bool,
    new_state: Cursor,
) -> bool {
    &&& back_arg(c, select) is Some ==> exists|out: usize|
        #[trigger] call_ensures(transform, (back_arg(c, select)->0,), out) && new_state
            == forward_spec(c, select, out)
    &&& back_arg(c, select) is None ==> new_state == forward_spec(c, select, 0)
}

/// The state of a cursor.
pub struct CursorState {
    pub state: Cursor,
}

impl CursorState {
    /// A single position at zero.
    pub fn new() -> (r: Self)
        ensures
            r.state == Cursor::Singleton(0),
    {
        CursorState { state: Cursor::Singleton(0) }
    }

    /// The cursor.
    pub fn state(&self) -> (r: Cursor)
        ensures
            r == self.state,
    {
        self.state
    }

    /// Puts a single position at `i`.
    pub fn place(&mut self, i: usize)
        ensures
            final(self).state == Cursor::Singleton(i),
    {
        self.state = Cursor::Singleton(i);
    }

    /// Brings both positions down to `bound`.
    pub fn clamp(&mut self, bound: usize)
        ensures
            final(self).state == clamp_spec(old(self).state, bound),
    {
        self.state = match self.state {
            Cursor::Singleton(i) => Cursor::Singleton(if i < bound { i } else { bound }),
            Cursor::Selection(start, end, dir) => Cursor::new_range(
                if start < bound { start } else { bound },
                if end < bound { end } else { bound },
                dir,
            ),
        }
    }

    /// Resets the cursor to a single position at zero and returns the state
    /// it had.
    pub fn reset(&mut self) -> (r: Self)
        ensures
            final(self).state == Cursor::Singleton(0),
            r.state == old(self).state,
    {
        let r = CursorState { state: self.state };
        self.state = Cursor::Singleton(0);
        r
    }

    /// The position a move transforms, if it transforms one.
    fn moving_end(state: Cursor, select: bool) -> (r: Option<usize>)
        ensures
            r == back_arg(state, select),
    {
        match state {
            Cursor::Singleton(i) => Some(i),
            Cursor::Selection(start, end, dir) => {
                if select {
                    match dir {
                        SelectionOrigin::Right => Some(end),
                        SelectionOrigin::Left => Some(start),
                    }
                } else {
                    None
                }
            },
        }
    }

    /// The cursor after a backward move whose transformed position is `out`.
    fn after_back(state: Cursor, select: bool, out: usize) -> (r: Cursor)
        ensures
            r == back_spec(state, select, out),
    {
        match state {
            Cursor::Singleton(i) => {
                if select && i > 0 {
                    Cursor::Selection(out, i, SelectionOrigin::Left)
                } else {
                    Cursor::Singleton(out)
                }
            },
            Cursor::Selection(start, end, dir) => {
                if select {
                    match dir {
                        SelectionOrigin::Right => Cursor::new_range(start, out, dir),
                        SelectionOrigin::Left => Cursor::new_range(out, end, dir),
                    }
                } else {
                    Cursor::Singleton(start)
                }
            },
        }
    }

    /// The cursor after a forward move whose transformed position is `out`.
    fn after_forward(state: Cursor, select: bool, out: usize) -> (r: Cursor)
        ensures
            r == forward_spec(state, select, out),
    {
        match state {
            Cursor::Singleton(i) => {
                if select {
                    Cursor::new_range(i, out, SelectionOrigin::Right)
                } else {
                    Cursor::Singleton(out)
                }
            },
            Cursor::Selection(start, end, dir) => {
                if select {
                    match dir {
                        SelectionOrigin::Right => Cursor::new_range(start, out, dir),
                        SelectionOrigin::Left => Cursor::new_range(out, end, dir),
                    }
                } else {
                    Cursor::Singleton(end)
                }
            },
        }
    }

    /// Moves backward, `transform` giving the new position from the one it
    /// moves.
    pub fn back<F: FnOnce(usize) -> usize>(&mut self, select: bool, transform: F)
        requires
            back_arg(old(self).state, select) matches Some(a) ==> call_requires(transform, (a,)),
        ensures
            back_moved(transform, old(self).state, select, final(self).state),
    {
        let st = self.state;
        match Self::moving_end(st, select) {
            Some(a) => {
                let out = transform(a);
                self.state = Self::after_back(st, select, out);
            },
            None => {
                self.state = Self::after_back(st, select, 0);
            },
        }
    }

    /// Moves forward, `transform` giving the new position from the one it
    /// moves.
    pub fn forward<F: FnOnce(usize) -> usize>(&mut self, select: bool, transform: F)
        requires
            back_arg(old(self).state, select) matches Some(a) ==> call_requires(transform, (a,)),
        ensures
            forward_moved(transform, old(self).state, select, final(self).state),
    {
        let st = self.state;
        match Self::moving_end(st, select) {
            Some(a) => {
                let out = transform(a);
                self.state = Self::after_forward(st, select, out);
            },
            None => {
                self.state = Self::after_forward(st, select, 0);
            },
        }
    }
}

/// Flipping the moving end twice gives it back.
pub proof fn law_flip_twice(o: SelectionOrigin)
    ensures
        flip_spec(flip_spec(o)) == o,
{
}

/// A cursor spanning two positions holds them in order: a single position
/// when they are equal, else a selection from the smaller to the larger.
pub proof fn law_range_ordered(a: usize, b: usize, d: SelectionOrigin)
    ensures
        match range_spec(a, b, d) {
            Cursor::Singleton(i) => a == b && i == a,
            Cursor::Selection(s, e, _) => s < e && ((s == a && e == b) || (s == b && e == a)),
        },
{
}

/// The larger of the positions of `c`.
pub open spec fn far_end(c: Cursor) -> usize {
    match c {
        Cursor::Singleton(i) => i,
        Cursor::Selection(a, b, _) => if a < b {
            b
        } else {
            a
        },
    }
}

/// The smaller of the positions of `c`.
pub open spec fn near_end(c: Cursor) -> usize {
    match c {
        Cursor::Singleton(i) => i,
        Cursor::Selection(a, b, _) => if a < b {
            a
        } else {
            b
        },
    }
}

/// A move without extending the selection leaves a single position: a
/// forward move never lands before where the cursor reached, and from an
/// ordered selection it lands on the selection's last position; a backward
/// move never lands after where the cursor started, and from an ordered
/// selection it lands on the selection's first position.
pub proof fn law_plain_moves_collapse_outward<F: FnOnce(usize) -> usize>(transform: F, c: Cursor, r: Cursor)
    requires
        c matches Cursor::Selection(a, b, _) ==> a <= b,
        forall|i: usize, out: usize| call_ensures(transform, (i,), out) ==> i <= out,
    ensures
        forward_moved(transform, c, false, r) ==> r is Singleton && far_end(r) >= far_end(c),
        forward_moved(transform, c, false, r) && c is Selection ==> r == Cursor::Singleton(far_end(c)),
        c is Selection ==> (back_moved(transform, c, false, r) ==> r == Cursor::Singleton(near_end(c))),
{
    if forward_moved(transform, c, false, r) {
        if let Cursor::Singleton(i) = c {
            let out = choose|out: usize| #[trigger] call_ensures(transform, (i,), out) && r == forward_spec(c, false, out);
            assert(call_ensures(transform, (i,), out));
        }
    }
}

} // verus!
