//! The property-listing catalog: a small registry of reservable
//! properties, each with a content hash, an owner, and an availability
//! status. Updates are gated on the recorded owner; listing ids are unique.

use vstd::prelude::*;

verus! {

/// Availability status of a listed property.
#[derive(Clone, Copy, Debug, PartialEq, Eq, Structural)]
pub enum PropertyStatus {
    Available,
    Booked,
    Maintenance,
}

/// Why a catalog operation was rejected. Every error is fatal for the
/// operation that raised it and leaves the catalog unchanged.
#[derive(Clone, Copy, Debug, PartialEq, Eq, Structural)]
pub enum ListingError {
    /// A listing with the given id already exists.
    AlreadyExists,
    /// No listing with the given id exists.
    NotFound,
    /// The caller is not the listing's owner.
    Unauthorized,
}

/// One listed property.
#[derive(Debug)]
pub struct PropertyListing {
    /// Opaque identifier of the property; unique within the catalog.
    pub id: String,
    /// Opaque hash of the listing's off-ledger data.
    pub data_hash: String,
    /// Opaque identifier of the owner; only the owner may update.
    pub owner: String,
    /// Current availability status.
    pub status: PropertyStatus,
}

/// Mathematical model of a [`PropertyListing`].
pub ghost struct ListingModel {
    pub id: Seq<char>,
    pub data_hash: Seq<char>,
    pub owner: Seq<char>,
    pub status: PropertyStatus,
}

impl View for PropertyListing {
    type V = ListingModel;

    open spec fn view(&self) -> ListingModel {
        ListingModel {
            id: self.id@,
            data_hash: self.data_hash@,
            owner: self.owner@,
            status: self.status,
        }
    }
}

impl Clone for PropertyListing {
    /// A clone is field-identical to the original.
    fn clone(&self) -> (res: Self)
        ensures
            res == *self,
    {
        PropertyListing {
            id: self.id.clone(),
            data_hash: self.data_hash.clone(),
            owner: self.owner.clone(),
            status: self.status,
        }
    }
}

/// No two listings share an id.
pub open spec fn listing_ids_unique(m: Seq<ListingModel>) -> bool {
    forall|j: int, k: int|
        0 <= j < k < m.len() ==> (#[trigger] m[j]).id != (#[trigger] m[k]).id
}

/// The property catalog.
pub struct PropertyListingContract {
    listings: Vec<PropertyListing>,
}

impl View for PropertyListingContract {
    type V = Seq<ListingModel>;

    /// The catalog's model: the listings in insertion order.
    closed spec fn view(&self) -> Seq<ListingModel> {
        self.listings@.map_values(|l: PropertyListing| l@)
    }
}

impl PropertyListingContract {
    /// Well-formedness of the catalog: listing ids are unique. Established
    /// by [`Self::new`] and preserved by every operation.
    pub closed spec fn wf(self) -> bool {
        listing_ids_unique(self@)
    }

    /// Create an empty catalog.
    pub fn new() -> (s: Self)
        ensures
            s.wf(),
            s@ == Seq::<ListingModel>::empty(),
    {
        let s = PropertyListingContract { listings: Vec::new() };
        proof {
            assert(s@ =~= Seq::<ListingModel>::empty());
        }
        s
    }

    /// Position of the listing with the given id, if any.
    fn find_listing(&self, id: &String) -> (r: Option<usize>)
        ensures
            match r {
                Some(j) => j < self@.len() && self@[j as int].id == id@,
                None => forall|j: int|
                    0 <= j < self@.len() ==> (#[trigger] self@[j]).id != id@,
            },
    {
        let mut j: usize = 0;
        while j < self.listings.len()
            invariant
                j <= self.listings@.len(),
                forall|k: int| 0 <= k < j ==> (#[trigger] self@[k]).id != id@,
            decreases self.listings@.len() - j,
        {
            if self.listings[j].id == *id {
                return Some(j);
            }
            j = j + 1;
        }
        None
    }

    /// Register a new property listing in status `Available` and return it.
    ///
    /// Fails with `AlreadyExists` exactly when a listing with this id is
    /// registered; the catalog is then unchanged.
    pub fn create_listing(&mut self, id: String, data_hash: String, owner: String) -> (r: Result<
        PropertyListing,
        ListingError,
    >)
        requires
            old(self).wf(),
        ensures
            final(self).wf(),
            r is Ok <==> (forall|j: int|
                0 <= j < old(self)@.len() ==> (#[trigger] old(self)@[j]).id != id@),
            match r {
                Ok(l) => {
                    &&& l@ == (ListingModel {
                        id: id@,
                        data_hash: data_hash@,
                        owner: owner@,
                        status: PropertyStatus::Available,
                    })
                    &&& final(self)@ == old(self)@.push(l@)
                },
                Err(e) => {
                    &&& *final(self) == *old(self)
                    &&& e == ListingError::AlreadyExists
                },
            },
    {
        if self.find_listing(&id).is_some() {
            return Err(ListingError::AlreadyExists);
        }
        let ghost m0 = self@;
        let listing = PropertyListing { id, data_hash, owner, status: PropertyStatus::Available };
        let result = listing.clone();
        self.listings.push(listing);
        proof {
            assert(self@ =~= m0.push(result@));
            assert forall|j: int, k: int| 0 <= j < k < self@.len() implies (
            #[trigger] self@[j]).id != (#[trigger] self@[k]).id by {
                if k < m0.len() {
                    assert(self@[j] == m0[j] && self@[k] == m0[k]);
                } else {
                    assert(self@[j] == m0[j]);
                }
            }
        }
        Ok(result)
    }

    /// Replace the data hash of an existing listing, keeping its status,
    /// and return the updated listing.
    ///
    /// Fails with `NotFound` when no listing has this id, and with
    /// `Unauthorized` when `owner` is not the recorded owner; the catalog
    /// is then unchanged.
    pub fn update_listing(&mut self, id: String, data_hash: String, owner: String) -> (r: Result<
        PropertyListing,
        ListingError,
    >)
        requires
            old(self).wf(),
        ensures
            final(self).wf(),
            r is Ok <==> (exists|j: int|
                0 <= j < old(self)@.len() && (#[trigger] old(self)@[j]).id == id@
                    && old(self)@[j].owner == owner@),
            match r {
                Ok(l) => exists|j: int|
                    {
                        &&& 0 <= j < old(self)@.len()
                        &&& (#[trigger] old(self)@[j]).id == id@
                        &&& old(self)@[j].owner == owner@
                        &&& l@ == (ListingModel { data_hash: data_hash@, ..old(self)@[j] })
                        &&& final(self)@ == old(self)@.update(j, l@)
                    },
                Err(e) => {
                    &&& *final(self) == *old(self)
                    &&& if forall|j: int|
                        0 <= j < old(self)@.len() ==> (#[trigger] old(self)@[j]).id != id@ {
                        e == ListingError::NotFound
                    } else {
                        e == ListingError::Unauthorized
                    }
                },
            },
    {
        let j = match self.find_listing(&id) {
            Some(j) => j,
            None => {
                return Err(ListingError::NotFound);
            },
        };
        if !(self.listings[j].owner == owner) {
            return Err(ListingError::Unauthorized);
        }
        let ghost m0 = self@;
        let l = &mut self.listings[j];
        l.data_hash = data_hash;
        proof {
            assert(self@ =~= m0.update(j as int, self@[j as int]));
            assert forall|a: int, b: int| 0 <= a < b < self@.len() implies (
            #[trigger] self@[a]).id != (#[trigger] self@[b]).id by {
                assert(self@[a].id == m0[a].id);
                assert(self@[b].id == m0[b].id);
            }
        }
        Ok(self.listings[j].clone())
    }

    /// Change the status of an existing listing, keeping its data hash, and
    /// return the updated listing.
    ///
    /// Fails with `NotFound` when no listing has this id, and with
    /// `Unauthorized` when `owner` is not the recorded owner; the catalog
    /// is then unchanged.
    pub fn update_status(&mut self, id: String, owner: String, status: PropertyStatus) -> (r:
        Result<PropertyListing, ListingError>)
        requires
            old(self).wf(),
        ensures
            final(self).wf(),
            r is Ok <==> (exists|j: int|
                0 <= j < old(self)@.len() && (#[trigger] old(self)@[j]).id == id@
                    && old(self)@[j].owner == owner@),
            match r {
                Ok(l) => exists|j: int|
                    {
                        &&& 0 <= j < old(self)@.len()
                        &&& (#[trigger] old(self)@[j]).id == id@
                        &&& old(self)@[j].owner == owner@
                        &&& l@ == (ListingModel { status, ..old(self)@[j] })
                        &&& final(self)@ == old(self)@.update(j, l@)
                    },
                Err(e) => {
                    &&& *final(self) == *old(self)
                    &&& if forall|j: int|
                        0 <= j < old(self)@.len() ==> (#[trigger] old(self)@[j]).id != id@ {
                        e == ListingError::NotFound
                    } else {
                        e == ListingError::Unauthorized
                    }
                },
            },
    {
        let j = match self.find_listing(&id) {
            Some(j) => j,
            None => {
                return Err(ListingError::NotFound);
            },
        };
        if !(self.listings[j].owner == owner) {
            return Err(ListingError::Unauthorized);
        }
        let ghost m0 = self@;
        let l = &mut self.listings[j];
        l.status = status;
        proof {
            assert(self@ =~= m0.update(j as int, self@[j as int]));
            assert forall|a: int, b: int| 0 <= a < b < self@.len() implies (
            #[trigger] self@[a]).id != (#[trigger] self@[b]).id by {
                assert(self@[a].id == m0[a].id);
                assert(self@[b].id == m0[b].id);
            }
        }
        Ok(self.listings[j].clone())
    }

    /// Look up a listing by id.
    ///
    /// Returns a field-identical copy of the stored listing, or `NotFound`
    /// exactly when no listing has this id.
    pub fn get_listing(&self, id: &String) -> (r: Result<PropertyListing, ListingError>)
        requires
            self.wf(),
        ensures
            r is Ok <==> (exists|j: int|
                0 <= j < self@.len() && (#[trigger] self@[j]).id == id@),
            match r {
                Ok(l) => exists|j: int|
                    0 <= j < self@.len() && (#[trigger] self@[j]).id == id@ && l@ == self@[j],
                Err(e) => e == ListingError::NotFound,
            },
    {
        match self.find_listing(id) {
            Some(j) => Ok(self.listings[j].clone()),
            None => Err(ListingError::NotFound),
        }
    }

    /// All listings, in insertion order.
    pub fn get_all_listings(&self) -> (r: Vec<PropertyListing>)
        ensures
            r@.map_values(|l: PropertyListing| l@) == self@,
    {
        let mut result: Vec<PropertyListing> = Vec::new();
        let mut j: usize = 0;
        while j < self.listings.len()
            invariant
                j <= self.listings@.len(),
                result@.len() == j,
                forall|k: int| 0 <= k < j ==> (#[trigger] result@[k])@ == self@[k],
            decreases self.listings@.len() - j,
        {
            result.push(self.listings[j].clone());
            j = j + 1;
        }
        proof {
            assert(result@.map_values(|l: PropertyListing| l@) =~= self@);
        }
        result
    }
}

} // verus!
