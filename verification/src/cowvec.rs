use vstd::prelude::*;

verus! {

/// A fixed view of the items a copy-on-write vector held at one moment.
pub struct CowVecSnapshot<T> {
    items: Vec<T>,
}

impl<T: Copy> CowVecSnapshot<T> {
    /// The items, in order.
    pub closed spec fn items(&self) -> Seq<T> {
        self.items@
    }

    /// A snapshot of the given items.
    pub fn from_vec(items: Vec<T>) -> (r: Self)
        ensures
            r.items() == items@,
    {
        CowVecSnapshot { items }
    }

    /// The number of items.
    pub fn len(&self) -> (r: usize)
        ensures
            r == self.items().len(),
    {
        self.items.len()
    }

    /// The item at `index`, or `None` past the end.
    pub fn get(&self, index: usize) -> (r: Option<T>)
        ensures
            r == (if index < self.items().len() {
                Some(self.items()[index as int])
            } else {
                None::<T>
            }),
    {
        if index < self.items.len() {
            Some(self.items[index])
        } else {
            None
        }
    }

    /// The items as a slice.
    pub fn as_slice(&self) -> (r: &[T])
        ensures
            r@ == self.items(),
    {
        self.items.as_slice()
    }
}

/// Fixed views of the segments of a vector split into runs, in order.
pub struct SplitCowVecSnapshot<T> {
    snapshots: Vec<CowVecSnapshot<T>>,
}

impl<T: Copy> SplitCowVecSnapshot<T> {
    /// The segments, in order.
    pub closed spec fn segments(&self) -> Seq<CowVecSnapshot<T>> {
        self.snapshots@
    }

    /// A snapshot made of the given segments.
    pub fn from_segments(snapshots: Vec<CowVecSnapshot<T>>) -> (r: Self)
        ensures
            r.segments() == snapshots@,
    {
        SplitCowVecSnapshot { snapshots }
    }

    /// The number of segments.
    pub fn segment_count(&self) -> (r: usize)
        ensures
            r == self.segments().len(),
    {
        self.snapshots.len()
    }

    /// The segment at `index`, or `None` past the last.
    pub fn get_segment(&self, index: usize) -> (r: Option<&CowVecSnapshot<T>>)
        ensures
            r == (if index < self.segments().len() {
                Some(&self.segments()[index as int])
            } else {
                None::<&CowVecSnapshot<T>>
            }),
    {
        if index < self.snapshots.len() {
            Some(&self.snapshots[index])
        } else {
            None
        }
    }
}

} // verus!
