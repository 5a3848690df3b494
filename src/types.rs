//! Names and coordinates: timelines, entity paths, component names.
use vstd::prelude::*;

verus! {

/// How the values of a timeline are read: as sequence numbers or as nanoseconds.
#[derive(Clone, Copy, Debug, PartialEq, Eq, Structural)]
pub enum TimeType {
    Sequence,
    Time,
}

/// A named time axis. Two timelines with the same name and different kinds differ.
#[derive(Debug)]
pub struct Timeline {
    pub name: String,
    pub typ: TimeType,
}

/// What identifies a timeline: its name and its kind.
pub type TimelineView = (Seq<char>, TimeType);

impl View for Timeline {
    type V = TimelineView;

    open spec fn view(&self) -> TimelineView {
        (self.name@, self.typ)
    }
}

impl Timeline {
    pub fn new(name: &str, typ: TimeType) -> (r: Timeline)
        ensures
            r@ == (name@, typ),
    {
        Timeline { name: name.to_owned(), typ }
    }

    /// The timeline on which wall-clock insertion times are recorded.
    pub fn log_time() -> (r: Timeline)
        ensures
            r@ == ("log_time"@, TimeType::Time),
    {
        Timeline::new("log_time", TimeType::Time)
    }

    pub fn same_as(&self, other: &Timeline) -> (r: bool)
        ensures
            r == (self@ == other@),
    {
        self.typ == other.typ && self.name == other.name
    }

    pub fn duplicate(&self) -> (r: Timeline)
        ensures
            r@ == self@,
    {
        Timeline { name: self.name.clone(), typ: self.typ }
    }
}

/// A coordinate on a timeline.
#[derive(Clone, Copy, Debug, PartialEq, Eq, Structural)]
pub struct TimeInt(pub i64);

impl TimeInt {
    pub fn new(t: i64) -> (r: TimeInt)
        ensures
            r.0 == t,
    {
        TimeInt(t)
    }

    pub fn as_i64(&self) -> (r: i64)
        ensures
            r == self.0,
    {
        self.0
    }
}

/// The identifier that the store gives a row when it accepts it.
#[derive(Clone, Copy, Debug, PartialEq, Eq, Hash, Structural)]
pub struct RowId(pub u64);

/// A `/`-separated hierarchical name of the thing that rows describe.
#[derive(Debug)]
pub struct EntityPath {
    pub path: String,
}

impl View for EntityPath {
    type V = Seq<char>;

    open spec fn view(&self) -> Seq<char> {
        self.path@
    }
}

impl EntityPath {
    pub fn new(path: &str) -> (r: EntityPath)
        ensures
            r@ == path@,
    {
        EntityPath { path: path.to_owned() }
    }

    pub fn from_string(path: String) -> (r: EntityPath)
        ensures
            r@ == path@,
    {
        EntityPath { path }
    }

    pub fn same_as(&self, other: &EntityPath) -> (r: bool)
        ensures
            r == (self@ == other@),
    {
        self.path == other.path
    }

    pub fn duplicate(&self) -> (r: EntityPath)
        ensures
            r@ == self@,
    {
        EntityPath { path: self.path.clone() }
    }
}

/// The name of a component column.
#[derive(Debug)]
pub struct ComponentName {
    pub name: String,
}

impl View for ComponentName {
    type V = Seq<char>;

    open spec fn view(&self) -> Seq<char> {
        self.name@
    }
}

impl ComponentName {
    pub fn new(name: &str) -> (r: ComponentName)
        ensures
            r@ == name@,
    {
        ComponentName { name: name.to_owned() }
    }

    pub fn same_as(&self, other: &ComponentName) -> (r: bool)
        ensures
            r == (self@ == other@),
    {
        self.name == other.name
    }

    pub fn duplicate(&self) -> (r: ComponentName)
        ensures
            r@ == self@,
    {
        ComponentName { name: self.name.clone() }
    }
}

} // verus!
