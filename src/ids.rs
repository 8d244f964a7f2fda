//! Identifiers of the entities that the daemon's session manages.
use vstd::prelude::*;

verus! {

/// An id that the client can intern: it has a mathematical key, and two ids
/// can be compared and copied in executable code.
pub trait EntityId: Sized {
    /// The id as a sequence of integers; distinct ids have distinct keys.
    spec fn key(&self) -> Seq<u64>;

    fn same(&self, other: &Self) -> (r: bool)
        ensures
            r == (self.key() == other.key()),
    ;

    fn duplicate(&self) -> (r: Self)
        ensures
            r.key() == self.key(),
    ;
}

/// Compares two integer sequences element by element.
pub fn path_eq(a: &Vec<u64>, b: &Vec<u64>) -> (r: bool)
    ensures
        r == (a@ == b@),
{
    if a.len() != b.len() {
        return false;
    }
    let mut i: usize = 0;
    while i < a.len()
        invariant
            a@.len() == b@.len(),
            i <= a@.len(),
            forall|j: int| 0 <= j < i ==> a@[j] == b@[j],
        decreases a@.len() - i,
    {
        if a[i] != b[i] {
            return false;
        }
        i = i + 1;
    }
    assert(a@ =~= b@);
    true
}

/// Copies an integer sequence.
pub fn path_copy(a: &Vec<u64>) -> (r: Vec<u64>)
    ensures
        r@ == a@,
{
    let mut r: Vec<u64> = Vec::with_capacity(a.len());
    let mut i: usize = 0;
    while i < a.len()
        invariant
            i <= a@.len(),
            r@ == a@.subrange(0, i as int),
        decreases a@.len() - i,
    {
        r.push(a[i]);
        i = i + 1;
        assert(r@ =~= a@.subrange(0, i as int));
    }
    assert(a@.subrange(0, a@.len() as int) =~= a@);
    r
}

/// A location: the path of indices from the root location.
pub struct LocationId {
    pub path: Vec<u64>,
}

/// An element: the location that holds it and its index there.
pub struct ElementId {
    pub uid: u64,
    pub location_id: LocationId,
}

/// A loaded module.
#[derive(Clone, Copy, PartialEq, Eq, Structural, Debug)]
pub struct ModuleId {
    pub uid: u64,
}

impl View for LocationId {
    type V = Seq<u64>;

    open spec fn view(&self) -> Seq<u64> {
        self.path@
    }
}

impl View for ElementId {
    type V = (Seq<u64>, u64);

    open spec fn view(&self) -> (Seq<u64>, u64) {
        (self.location_id@, self.uid)
    }
}

impl LocationId {
    pub fn new(path: Vec<u64>) -> (r: LocationId)
        ensures
            r@ == path@,
    {
        LocationId { path }
    }
}

impl ElementId {
    pub fn new(location_id: LocationId, uid: u64) -> (r: ElementId)
        ensures
            r@ == (location_id@, uid),
    {
        ElementId { uid, location_id }
    }
}

impl EntityId for LocationId {
    open spec fn key(&self) -> Seq<u64> {
        self@
    }

    fn same(&self, other: &Self) -> (r: bool) {
        path_eq(&self.path, &other.path)
    }

    fn duplicate(&self) -> (r: Self) {
        LocationId { path: path_copy(&self.path) }
    }
}

/// The key of an element: its location's path followed by its index. The
/// last entry tells the index apart from the path, so distinct elements have
/// distinct keys.
pub open spec fn element_key(location: Seq<u64>, uid: u64) -> Seq<u64> {
    location.push(uid)
}

impl EntityId for ElementId {
    open spec fn key(&self) -> Seq<u64> {
        element_key(self.location_id@, self.uid)
    }

    fn same(&self, other: &Self) -> (r: bool) {
        let r = self.uid == other.uid && path_eq(&self.location_id.path, &other.location_id.path);
        proof {
            let a = element_key(self.location_id@, self.uid);
            let b = element_key(other.location_id@, other.uid);
            if a == b {
                assert(a.last() == b.last());
                assert(self.location_id@ =~= a.drop_last());
                assert(other.location_id@ =~= b.drop_last());
            }
            if r {
                assert(a =~= b);
            }
        }
        r
    }

    fn duplicate(&self) -> (r: Self) {
        ElementId { uid: self.uid, location_id: self.location_id.duplicate() }
    }
}

impl EntityId for ModuleId {
    open spec fn key(&self) -> Seq<u64> {
        seq![self.uid]
    }

    fn same(&self, other: &Self) -> (r: bool) {
        let r = self.uid == other.uid;
        proof {
            if seq![self.uid] == seq![other.uid] {
                assert(seq![self.uid][0] == seq![other.uid][0]);
            }
            if r {
                assert(seq![self.uid] =~= seq![other.uid]);
            }
        }
        r
    }

    fn duplicate(&self) -> (r: Self) {
        *self
    }
}

} // verus!
