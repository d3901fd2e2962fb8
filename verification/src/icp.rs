use vstd::prelude::*;

verus! {

/// Why a registration cannot be set up.
#[derive(Debug, Clone, Copy, PartialEq, Eq, Structural)]
pub enum IcpError {
    /// The reference cloud has no point to match against.
    EmptyReference,
}

/// Whether `at` is the nearest neighbour among `distances`: the first index
/// whose distance is the smallest of all, provided that distance is below
/// `limit`; index 0 when no distance is below `limit`.
///
/// A distance is any unsigned number that grows with the true distance.
pub open spec fn is_nearest(distances: Seq<u64>, limit: u64, at: int) -> bool {
    if forall|j: int| 0 <= j < distances.len() ==> distances[j] >= limit {
        at == 0
    } else {
        &&& 0 <= at < distances.len()
        &&& distances[at] < limit
        &&& forall|j: int| 0 <= j < distances.len() ==> distances[at] <= distances[j]
        &&& forall|j: int| 0 <= j < at ==> distances[j] > distances[at]
    }
}

/// Ties go to the first: there is one nearest neighbour and no other.
pub proof fn lemma_nearest_is_unique(distances: Seq<u64>, limit: u64, a: int, b: int)
    requires
        is_nearest(distances, limit, a),
        is_nearest(distances, limit, b),
    ensures
        a == b,
{
}

/// Finds the nearest neighbour by one pass over `distances`, keeping the
/// index of the strictly smallest distance seen so far.
pub fn nearest_neighbor(distances: &Vec<u64>, limit: u64) -> (min_idx: usize)
    ensures
        is_nearest(distances@, limit, min_idx as int),
{
    let mut min_distance: u64 = limit;
    let mut min_idx: usize = 0;
    let mut j: usize = 0;
    while j < distances.len()
        invariant
            j <= distances.len(),
            min_distance <= limit,
            is_nearest(distances@.take(j as int), limit, min_idx as int),
            min_distance < limit ==> min_idx < j && distances@[min_idx as int] == min_distance,
            min_distance == limit ==> forall|k: int| 0 <= k < j ==> distances@[k] >= limit,
        decreases distances.len() - j,
    {
        let ghost seen = distances@.take(j as int);
        let ghost next = distances@.take(j + 1);
        let distance: u64 = distances[j];
        proof {
            assert(forall|k: int| 0 <= k < j ==> next[k] == seen[k]);
            assert(next[j as int] == distance);
            if min_distance < limit {
                assert(seen[min_idx as int] == min_distance);
            }
        }
        if distance < min_distance {
            min_distance = distance;
            min_idx = j;
        }
        proof {
            assert(next[min_idx as int] == min_distance || min_distance == limit);
        }
        j += 1;
    }
    proof {
        assert(distances@.take(distances.len() as int) =~= distances@);
    }
    min_idx
}

/// The correspondence table of a registration: for each point of the scan
/// cloud, by its index, the index of the point of the reference cloud that
/// it is matched with.
#[derive(Debug, Clone)]
pub struct Correspondences {
    /// The number of points in the reference cloud.
    reference_len: usize,
    /// The matched reference index of each scan point.
    table: Vec<usize>,
}

impl Correspondences {
    /// What every table keeps: a reference cloud that is not empty, and
    /// entries that are indices into it.
    pub closed spec fn well_formed(&self) -> bool {
        &&& self.reference_len > 0
        &&& forall|i: int| 0 <= i < self.table@.len() ==> self.table@[i] < self.reference_len
    }

    /// The matched reference index of each scan point.
    pub closed spec fn view(&self) -> Seq<usize> {
        self.table@
    }

    /// The number of points in the reference cloud.
    pub closed spec fn spec_reference_len(&self) -> nat {
        self.reference_len as nat
    }

    /// Every entry of a table is an index into its reference cloud.
    pub proof fn lemma_entries_in_reference(&self, i: int)
        requires
            self.well_formed(),
            0 <= i < self@.len(),
        ensures
            self@[i] < self.spec_reference_len(),
    {
    }

    /// A table for a scan cloud of `scan_len` points and a reference cloud
    /// of `reference_len` points, every scan point matched with the first
    /// reference point. An empty reference cloud is rejected.
    pub fn new(scan_len: usize, reference_len: usize) -> (table: Result<Self, IcpError>)
        ensures
            reference_len == 0 <==> table == Err::<Self, IcpError>(IcpError::EmptyReference),
            reference_len > 0 <==> table is Ok,
            table is Ok ==> {
                &&& table->Ok_0.well_formed()
                &&& table->Ok_0.spec_reference_len() == reference_len
                &&& table->Ok_0@ == Seq::new(scan_len as nat, |i: int| 0usize)
            },
    {
        if reference_len == 0 {
            return Err(IcpError::EmptyReference);
        }
        let mut table: Vec<usize> = Vec::new();
        let mut i: usize = 0;
        while i < scan_len
            invariant
                i <= scan_len,
                table@.len() == i,
                forall|k: int| 0 <= k < i ==> table@[k] == 0,
            decreases scan_len - i,
        {
            table.push(0);
            i += 1;
        }
        let correspondences = Self { reference_len, table };
        proof {
            assert(correspondences@ =~= Seq::new(scan_len as nat, |i: int| 0usize));
        }
        Ok(correspondences)
    }

    /// The number of points in the scan cloud.
    pub fn len(&self) -> (len: usize)
        ensures
            len == self@.len(),
    {
        self.table.len()
    }

    /// The number of points in the reference cloud.
    pub fn reference_len(&self) -> (len: usize)
        ensures
            len == self.spec_reference_len(),
    {
        self.reference_len
    }

    /// The reference index that scan point `scan_idx` is matched with.
    pub fn get(&self, scan_idx: usize) -> (reference_idx: usize)
        requires
            self.well_formed(),
            scan_idx < self@.len(),
        ensures
            reference_idx == self@[scan_idx as int],
            reference_idx < self.spec_reference_len(),
    {
        self.table[scan_idx]
    }

    /// Matches scan point `scan_idx` with its nearest neighbour, given its
    /// distance to each point of the reference cloud.
    pub fn assign_nearest(&mut self, scan_idx: usize, distances: &Vec<u64>, limit: u64)
        requires
            old(self).well_formed(),
            scan_idx < old(self)@.len(),
            distances@.len() == old(self).spec_reference_len(),
        ensures
            final(self).well_formed(),
            final(self).spec_reference_len() == old(self).spec_reference_len(),
            final(self)@.len() == old(self)@.len(),
            is_nearest(distances@, limit, final(self)@[scan_idx as int] as int),
            forall|i: int|
                0 <= i < old(self)@.len() && i != scan_idx ==> final(self)@[i] == old(self)@[i],
    {
        let min_idx = nearest_neighbor(distances, limit);
        self.table.set(scan_idx, min_idx);
    }

    /// Matches every scan point with its nearest neighbour, given for each
    /// scan point its distance to each point of the reference cloud.
    pub fn data_correspondences(&mut self, distances: &Vec<Vec<u64>>, limit: u64)
        requires
            old(self).well_formed(),
            distances@.len() == old(self)@.len(),
            forall|i: int|
                0 <= i < distances@.len() ==> (#[trigger] distances@[i])@.len() == old(
                    self,
                ).spec_reference_len(),
        ensures
            final(self).well_formed(),
            final(self).spec_reference_len() == old(self).spec_reference_len(),
            final(self)@.len() == old(self)@.len(),
            forall|i: int|
                0 <= i < distances@.len() ==> is_nearest(
                    (#[trigger] distances@[i])@,
                    limit,
                    final(self)@[i] as int,
                ),
    {
        let mut i: usize = 0;
        while i < distances.len()
            invariant
                i <= distances.len(),
                self.well_formed(),
                self.spec_reference_len() == old(self).spec_reference_len(),
                self@.len() == old(self)@.len(),
                distances@.len() == self@.len(),
                forall|k: int|
                    0 <= k < distances@.len() ==> (#[trigger] distances@[k])@.len()
                        == self.spec_reference_len(),
                forall|k: int|
                    0 <= k < i ==> is_nearest((#[trigger] distances@[k])@, limit, self@[k] as int),
            decreases distances.len() - i,
        {
            self.assign_nearest(i, &distances[i], limit);
            i += 1;
        }
    }
}

} // verus!
