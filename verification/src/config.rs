use vstd::prelude::*;

verus! {

/// The name under which the application keeps its files.
pub const APP_ID: &'static str = "bvr";

/// The file of the application's settings.
pub const CONFIG_FILE: &'static str = "config.toml";

/// The file the saved filters are kept in.
pub const FILTER_SAVE_FILE: &'static str = "filters.json";

/// The saved filter sets, as read from the filter file.
pub struct LoadedFilterSaveData<F> {
    pub filters: Vec<F>,
}

/// The saved filter sets: not yet read, or read.
pub enum FilterSaveData<F> {
    Unloaded,
    Loaded(LoadedFilterSaveData<F>),
}

/// The filter sets a read of the filter file gives: what it held, or none
/// when it could not be opened or parsed.
pub open spec fn read_filters<F>(read: Option<Vec<F>>) -> Seq<F> {
    match read {
        Some(v) => v@,
        None => Seq::empty(),
    }
}

impl<F> FilterSaveData<F> {
    /// The filter sets held, none before a read.
    pub open spec fn saved(&self) -> Seq<F> {
        match self {
            FilterSaveData::Unloaded => Seq::empty(),
            FilterSaveData::Loaded(data) => data.filters@,
        }
    }

    /// Nothing read yet.
    pub fn new() -> (r: Self)
        ensures
            r is Unloaded,
    {
        FilterSaveData::Unloaded
    }

    /// Takes in a fresh read of the filter file: what it held, or `None`
    /// when it could not be opened or parsed, which counts as no filters.
    pub fn load(&mut self, read: Option<Vec<F>>)
        ensures
            *final(self) is Loaded,
            final(self).saved() == read_filters(read),
    {
        let filters = match read {
            Some(v) => v,
            None => Vec::new(),
        };
        *self = FilterSaveData::Loaded(LoadedFilterSaveData { filters });
    }

    /// The filter sets after a fresh read of the filter file.
    pub fn filters(&mut self, read: Option<Vec<F>>) -> (r: &[F])
        ensures
            *final(self) is Loaded,
            final(self).saved() == read_filters(read),
            r@ == read_filters(read),
    {
        self.load(read);
        match self {
            FilterSaveData::Loaded(data) => data.filters.as_slice(),
            FilterSaveData::Unloaded => {
                assert(false);
                &[]
            },
        }
    }

    /// Reads the filter file afresh and keeps `filter` as the only saved
    /// set.
    pub fn add_filter(&mut self, read: Option<Vec<F>>, filter: F)
        ensures
            *final(self) is Loaded,
            final(self).saved() == seq![filter],
    {
        self.load(read);
        let mut filters: Vec<F> = Vec::new();
        filters.push(filter);
        proof {
            assert(filters@ =~= seq![filter]);
        }
        *self = FilterSaveData::Loaded(LoadedFilterSaveData { filters });
    }

    /// Reads the filter file afresh and drops the set at `index` of it.
    pub fn remove_filter(&mut self, read: Option<Vec<F>>, index: usize)
        requires
            index < read_filters(read).len(),
        ensures
            *final(self) is Loaded,
            final(self).saved() == read_filters(read).remove(index as int),
    {
        let mut filters = match read {
            Some(v) => v,
            None => Vec::new(),
        };
        filters.remove(index);
        *self = FilterSaveData::Loaded(LoadedFilterSaveData { filters });
    }
}

} // verus!
