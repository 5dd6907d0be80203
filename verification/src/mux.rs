use crate::direction::Direction;
use vstd::prelude::*;

verus! {

/// How several views are shown: side by side, or one at a time.
#[derive(Clone, Copy, PartialEq, Eq, Debug)]
pub enum MultiplexerMode {
    Panes,
    Tabs,
}

impl MultiplexerMode {
    /// The other mode.
    pub fn swap(self) -> (r: Self)
        ensures
            r == (match self {
                MultiplexerMode::Panes => MultiplexerMode::Tabs,
                MultiplexerMode::Tabs => MultiplexerMode::Panes,
            }),
    {
        match self {
            MultiplexerMode::Panes => MultiplexerMode::Tabs,
            MultiplexerMode::Tabs => MultiplexerMode::Panes,
        }
    }
}

/// The index an active position is moved to: `index`, brought down to the
/// last instance (zero when there is none).
pub open spec fn active_clamp(index: int, len: int) -> int {
    let last = if len > 0 { len - 1 } else { 0 };
    if index < last { index } else { last }
}

/// A list of open instances with a display mode and an active one.
pub struct MultiplexerApp<T> {
    instances: Vec<T>,
    mode: MultiplexerMode,
    active: usize,
}

impl<T> MultiplexerApp<T> {
    /// The instances, in order.
    pub closed spec fn instances_view(&self) -> Seq<T> {
        self.instances@
    }

    /// The position of the active instance.
    pub closed spec fn active_view(&self) -> usize {
        self.active
    }

    /// The display mode.
    pub closed spec fn mode_view(&self) -> MultiplexerMode {
        self.mode
    }

    /// No instances, shown as tabs, the first active.
    pub fn new() -> (r: Self)
        ensures
            r.instances_view().len() == 0,
            r.mode_view() == MultiplexerMode::Tabs,
            r.active_view() == 0,
    {
        MultiplexerApp { instances: Vec::new(), mode: MultiplexerMode::Tabs, active: 0 }
    }

    /// The number of instances.
    pub fn len(&self) -> (r: usize)
        ensures
            r == self.instances_view().len(),
    {
        self.instances.len()
    }

    /// Whether there is no instance.
    pub fn is_empty(&self) -> (r: bool)
        ensures
            r == (self.instances_view().len() == 0),
    {
        self.instances.len() == 0
    }

    /// Adds an instance at the end.
    pub fn push(&mut self, instance: T)
        ensures
            final(self).instances_view() == old(self).instances_view().push(instance),
            final(self).active_view() == old(self).active_view(),
            final(self).mode_view() == old(self).mode_view(),
    {
        self.instances.push(instance);
    }

    /// The instances.
    pub fn instances(&self) -> (r: &Vec<T>)
        ensures
            r@ == self.instances_view(),
    {
        &self.instances
    }

    /// The position of the active instance.
    pub fn active_index(&self) -> (r: usize)
        ensures
            r == self.active_view(),
    {
        self.active
    }

    /// Makes the instance at `index` active, or the last one when `index`
    /// is past it.
    pub fn move_active_index(&mut self, index: usize)
        ensures
            final(self).active_view() == active_clamp(
                index as int,
                old(self).instances_view().len() as int,
            ),
            final(self).instances_view() == old(self).instances_view(),
            final(self).mode_view() == old(self).mode_view(),
    {
        let last = self.instances.len().saturating_sub(1);
        self.active = if index < last {
            index
        } else {
            last
        };
    }

    /// Makes the previous or the next instance active, staying within the
    /// list.
    pub fn move_active(&mut self, direction: Direction)
        ensures
            final(self).active_view() == active_clamp(
                match direction {
                    Direction::Back => if old(self).active_view() > 0 {
                        old(self).active_view() - 1
                    } else {
                        0
                    },
                    Direction::Next => if old(self).active_view() < usize::MAX {
                        old(self).active_view() + 1
                    } else {
                        usize::MAX as int
                    },
                },
                old(self).instances_view().len() as int,
            ),
            final(self).instances_view() == old(self).instances_view(),
            final(self).mode_view() == old(self).mode_view(),
    {
        self.move_active_index(
            match direction {
                Direction::Back => self.active.saturating_sub(1),
                Direction::Next => self.active.saturating_add(1),
            },
        )
    }

    /// Closes the active instance; the active position is then brought down
    /// to the last remaining instance.
    pub fn close_active(&mut self)
        requires
            old(self).active_view() < old(self).instances_view().len(),
        ensures
            final(self).instances_view() == old(self).instances_view().remove(
                old(self).active_view() as int,
            ),
            final(self).active_view() == active_clamp(
                old(self).active_view() as int,
                old(self).instances_view().len() - 1,
            ),
            final(self).mode_view() == old(self).mode_view(),
    {
        self.instances.remove(self.active);
        let last = self.instances.len().saturating_sub(1);
        self.active = if self.active < last {
            self.active
        } else {
            last
        };
    }

    /// The instances, for changing them; the active position and the mode
    /// stay.
    pub fn instances_mut(&mut self) -> (r: &mut Vec<T>)
        ensures
            r@ == old(self).instances_view(),
            final(self).instances_view() == final(r)@,
            final(self).active_view() == old(self).active_view(),
            final(self).mode_view() == old(self).mode_view(),
    {
        &mut self.instances
    }

    /// The active instance, if any.
    pub fn active(&self) -> (r: Option<&T>)
        ensures
            self.active_view() < self.instances_view().len() ==> r == Some(
                &self.instances_view()[self.active_view() as int],
            ),
            self.active_view() >= self.instances_view().len() ==> r is None,
    {
        if self.active < self.instances.len() {
            Some(&self.instances[self.active])
        } else {
            None
        }
    }

    /// The active instance, if any, for changing it; the other instances,
    /// the active position and the mode stay.
    pub fn active_mut(&mut self) -> (r: Option<&mut T>)
        ensures
            old(self).active_view() >= old(self).instances_view().len() ==> r is None && *final(self) == *old(self),
            old(self).active_view() < old(self).instances_view().len() ==> (r matches Some(x) && *x
                == old(self).instances_view()[old(self).active_view() as int] && final(self).instances_view()
                == old(self).instances_view().update(old(self).active_view() as int, *final(x))),
            final(self).active_view() == old(self).active_view(),
            final(self).mode_view() == old(self).mode_view(),
    {
        if self.active < self.instances.len() {
            Some(&mut self.instances[self.active])
        } else {
            None
        }
    }

    /// The instance at `index`, if any, for changing it; the other
    /// instances, the active position and the mode stay.
    pub fn instance_mut(&mut self, index: usize) -> (r: Option<&mut T>)
        ensures
            index >= old(self).instances_view().len() ==> r is None && *final(self) == *old(self),
            index < old(self).instances_view().len() ==> (r matches Some(x) && *x
                == old(self).instances_view()[index as int] && final(self).instances_view()
                == old(self).instances_view().update(index as int, *final(x))),
            final(self).active_view() == old(self).active_view(),
            final(self).mode_view() == old(self).mode_view(),
    {
        if index < self.instances.len() {
            Some(&mut self.instances[index])
        } else {
            None
        }
    }

    /// The display mode.
    pub fn mode(&self) -> (r: MultiplexerMode)
        ensures
            r == self.mode_view(),
    {
        self.mode
    }

    /// Sets the display mode.
    pub fn set_mode(&mut self, mode: MultiplexerMode)
        ensures
            final(self).mode_view() == mode,
            final(self).instances_view() == old(self).instances_view(),
            final(self).active_view() == old(self).active_view(),
    {
        self.mode = mode;
    }

    /// Closes every instance and makes the first position active.
    pub fn clear(&mut self)
        ensures
            final(self).instances_view().len() == 0,
            final(self).active_view() == 0,
            final(self).mode_view() == old(self).mode_view(),
    {
        self.instances.clear();
        self.active = 0;
    }
}

/// Moving the active position keeps it on an instance whenever there is
/// one.
pub proof fn law_active_stays_in_range(index: int, len: int)
    requires
        len > 0,
        index >= 0,
    ensures
        0 <= active_clamp(index, len) < len,
{
}

} // verus!
