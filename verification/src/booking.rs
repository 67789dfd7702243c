//! The reservation engine: overlap detection, booking creation with a
//! dual-index store, the booking status state machine, and ownership-gated
//! cancellation.
//!
//! The ledger keeps a global index of every booking, keyed by a
//! monotonically increasing id, together with a secondary index that groups
//! booking ids by property, so that availability queries touch only one
//! property's bookings. The well-formedness predicate [`BookingContract::wf`]
//! ties the two indexes together and carries the central invariant: for any
//! two non-cancelled bookings on the same property, their half-open
//! `[start_date, end_date)` intervals are disjoint.

use vstd::prelude::*;

verus! {

/// Lifecycle status of a booking.
///
/// `Completed` and `Cancelled` are terminal: no transition leaves them.
#[derive(Clone, Copy, Debug, PartialEq, Eq, Structural)]
pub enum BookingStatus {
    Pending,
    Confirmed,
    Completed,
    Cancelled,
}

/// Why an engine operation was rejected. Every error is fatal for the
/// operation that raised it and leaves the ledger unchanged.
#[derive(Clone, Copy, Debug, PartialEq, Eq, Structural)]
pub enum BookingError {
    /// `start_date >= end_date`.
    InvalidDateRange,
    /// `total_price <= 0`.
    InvalidPrice,
    /// `start_date` lies before the current time.
    PastStartDate,
    /// The requested interval overlaps a non-cancelled booking.
    BookingOverlap,
    /// No booking with the given id exists.
    NotFound,
    /// The caller is not the booking's owner.
    Unauthorized,
    /// The booking is in a terminal status and cannot be cancelled.
    InvalidStatus,
    /// The requested status change is not in the transition table.
    InvalidTransition,
}

/// A reservation of one property over the half-open interval
/// `[start_date, end_date)`.
#[derive(Debug)]
pub struct Booking {
    /// Unique id, assigned by the engine, never reused or reassigned.
    pub id: u64,
    /// Opaque identifier of the reserved property.
    pub property_id: String,
    /// Opaque identifier of the requester.
    pub user_id: String,
    /// Inclusive start of the reserved interval.
    pub start_date: u64,
    /// Exclusive end of the reserved interval; always after `start_date`.
    pub end_date: u64,
    /// Price of the reservation; always strictly positive.
    pub total_price: i128,
    /// Current lifecycle status.
    pub status: BookingStatus,
    /// Reference to an external escrow record, absent until one is attached.
    pub escrow_id: Option<String>,
}

/// Mathematical model of a [`Booking`]: the same fields over unbounded
/// integers and character sequences.
pub ghost struct BookingModel {
    pub id: int,
    pub property_id: Seq<char>,
    pub user_id: Seq<char>,
    pub start_date: int,
    pub end_date: int,
    pub total_price: int,
    pub status: BookingStatus,
    pub escrow_id: Option<Seq<char>>,
}

impl View for Booking {
    type V = BookingModel;

    open spec fn view(&self) -> BookingModel {
        BookingModel {
            id: self.id as int,
            property_id: self.property_id@,
            user_id: self.user_id@,
            start_date: self.start_date as int,
            end_date: self.end_date as int,
            total_price: self.total_price as int,
            status: self.status,
            escrow_id: match self.escrow_id {
                Some(s) => Some(s@),
                None => None,
            },
        }
    }
}

impl Clone for Booking {
    /// A clone is field-identical to the original.
    fn clone(&self) -> (res: Self)
        ensures
            res == *self,
    {
        Booking {
            id: self.id,
            property_id: self.property_id.clone(),
            user_id: self.user_id.clone(),
            start_date: self.start_date,
            end_date: self.end_date,
            total_price: self.total_price,
            status: self.status,
            escrow_id: match &self.escrow_id {
                Some(s) => Some(s.clone()),
                None => None,
            },
        }
    }
}

/// Two half-open intervals `[s1, e1)` and `[s2, e2)` overlap exactly when
/// neither ends at or before the other starts.
pub open spec fn overlaps(s1: int, e1: int, s2: int, e2: int) -> bool {
    !(e1 <= s2 || s1 >= e2)
}

/// A booking's own validity: a non-empty interval and a positive price.
pub open spec fn valid_booking(b: BookingModel) -> bool {
    &&& b.start_date < b.end_date
    &&& b.total_price > 0
}

/// The status transition table. Exactly these four changes are allowed;
/// `Completed` and `Cancelled` admit none.
pub open spec fn transition_allowed(from: BookingStatus, to: BookingStatus) -> bool {
    ||| (from == BookingStatus::Pending && to == BookingStatus::Confirmed)
    ||| (from == BookingStatus::Confirmed && to == BookingStatus::Completed)
    ||| (from == BookingStatus::Pending && to == BookingStatus::Cancelled)
    ||| (from == BookingStatus::Confirmed && to == BookingStatus::Cancelled)
}

/// The interval `[start, end)` is free on property `pid`: it is non-empty
/// and overlaps no non-cancelled booking of that property.
pub open spec fn spec_available(m: Seq<BookingModel>, pid: Seq<char>, start: int, end: int) -> bool {
    &&& start < end
    &&& forall|i: int|
        0 <= i < m.len() && (#[trigger] m[i]).property_id == pid && m[i].status
            != BookingStatus::Cancelled ==> !overlaps(
            start,
            end,
            m[i].start_date,
            m[i].end_date,
        )
}

/// For every property, the intervals of non-cancelled bookings are pairwise
/// disjoint.
pub open spec fn non_cancelled_disjoint(m: Seq<BookingModel>) -> bool {
    forall|i: int, j: int|
        0 <= i < m.len() && 0 <= j < m.len() && i != j && (#[trigger] m[i]).property_id == (
        #[trigger] m[j]).property_id && m[i].status != BookingStatus::Cancelled && m[j].status
            != BookingStatus::Cancelled ==> !overlaps(
            m[i].start_date,
            m[i].end_date,
            m[j].start_date,
            m[j].end_date,
        )
}

/// The reservation engine together with its two stores.
///
/// `bookings` is the global index: the booking with id `i` sits at position
/// `i`, so ids are dense and lookup by id is a bounds check. `by_property`
/// is the secondary index: for each property that has at least one booking,
/// the ids of its bookings in insertion (= id) order. `count` is the
/// monotonic counter that supplies the next id.
pub struct BookingContract {
    count: u64,
    bookings: Vec<Booking>,
    by_property: Vec<(String, Vec<u64>)>,
}

/// One group of the secondary index is sound (every listed id names a
/// booking of this property), strictly increasing, and complete (every
/// booking of this property is listed).
pub open spec fn group_wf(m: Seq<BookingModel>, pid: Seq<char>, ids: Seq<u64>) -> bool {
    &&& forall|j: int|
        0 <= j < ids.len() ==> (#[trigger] ids[j]) < m.len() && m[ids[j] as int].property_id
            == pid
    &&& forall|j: int, k: int| 0 <= j < k < ids.len() ==> ids[j] < ids[k]
    &&& forall|i: int|
        0 <= i < m.len() && (#[trigger] m[i]).property_id == pid ==> ids.contains(i as u64)
}

/// The secondary index `idx` mirrors the global index `m`: group keys are
/// distinct, each group is sound, ordered and complete for its key, and
/// every booking's property has a group.
pub open spec fn index_ok(m: Seq<BookingModel>, idx: Seq<(Seq<char>, Seq<u64>)>) -> bool {
    &&& forall|g: int, h: int|
        0 <= g < h < idx.len() ==> (#[trigger] idx[g]).0 != (#[trigger] idx[h]).0
    &&& forall|g: int| 0 <= g < idx.len() ==> group_wf(m, (#[trigger] idx[g]).0, idx[g].1)
    &&& forall|i: int|
        0 <= i < m.len() ==> exists|g: int|
            0 <= g < idx.len() && (#[trigger] idx[g]).0 == (#[trigger] m[i]).property_id
}

impl View for BookingContract {
    type V = Seq<BookingModel>;

    /// The ledger's model: the sequence of booking models, in id order.
    closed spec fn view(&self) -> Seq<BookingModel> {
        self.bookings@.map_values(|b: Booking| b@)
    }
}

impl BookingContract {
    /// The counter that supplies the next booking id.
    pub closed spec fn spec_count(self) -> u64 {
        self.count
    }

    /// The secondary index, as a sequence of `(property, ids)` groups.
    spec fn spec_index(self) -> Seq<(Seq<char>, Seq<u64>)> {
        self.by_property@.map_values(|g: (String, Vec<u64>)| (g.0@, g.1@))
    }

    /// The secondary index mirrors the global one.
    spec fn index_wf(self) -> bool {
        index_ok(self@, self.spec_index())
    }

    /// Well-formedness of the whole ledger. Established by [`Self::initialize`]
    /// and preserved by every operation:
    /// - the counter equals the number of bookings ever created;
    /// - the booking with id `i` sits at position `i` of the global index;
    /// - every booking has a non-empty interval and a positive price;
    /// - non-cancelled intervals on one property are pairwise disjoint;
    /// - the secondary index mirrors the global one.
    pub closed spec fn wf(self) -> bool {
        &&& self.count == self@.len()
        &&& forall|i: int| 0 <= i < self@.len() ==> (#[trigger] self@[i]).id == i
        &&& forall|i: int| 0 <= i < self@.len() ==> valid_booking(#[trigger] self@[i])
        &&& non_cancelled_disjoint(self@)
        &&& self.index_wf()
    }

    /// Create a fresh, empty ledger with the id counter at zero.
    ///
    /// Must be called exactly once per deployment: a ledger from a second
    /// call shares nothing with the first.
    pub fn initialize() -> (s: Self)
        ensures
            s.wf(),
            s@ == Seq::<BookingModel>::empty(),
            s.spec_count() == 0,
    {
        let s = BookingContract { count: 0, bookings: Vec::new(), by_property: Vec::new() };
        proof {
            assert(s@ =~= Seq::<BookingModel>::empty());
        }
        s
    }

    /// Position of the secondary-index group for `property_id`, if any.
    fn find_group(&self, property_id: &String) -> (r: Option<usize>)
        ensures
            match r {
                Some(g) => g < self.spec_index().len() && self.spec_index()[g as int].0
                    == property_id@,
                None => forall|g: int|
                    0 <= g < self.spec_index().len() ==> (#[trigger] self.spec_index()[g]).0
                        != property_id@,
            },
    {
        let mut g: usize = 0;
        while g < self.by_property.len()
            invariant
                g <= self.by_property.len(),
                forall|h: int|
                    0 <= h < g ==> (#[trigger] self.spec_index()[h]).0 != property_id@,
            decreases self.by_property.len() - g,
        {
            if self.by_property[g].0 == *property_id {
                return Some(g);
            }
            g = g + 1;
        }
        None
    }

    /// Is the property free over `[start_date, end_date)`?
    ///
    /// Exactly when the interval is non-empty and overlaps no non-cancelled
    /// booking of this property, under the half-open rule: intervals that
    /// merely touch at a boundary do not overlap. Cancelled bookings are
    /// ignored. No side effects; this predicate is the sole overlap test,
    /// reused by [`Self::create_booking`].
    pub fn check_availability(&self, property_id: &String, start_date: u64, end_date: u64) -> (r:
        bool)
        requires
            self.wf(),
        ensures
            r == spec_available(self@, property_id@, start_date as int, end_date as int),
    {
        if start_date >= end_date {
            return false;
        }
        let group = match self.find_group(property_id) {
            Some(g) => g,
            None => {
                return true;
            },
        };
        let ids = &self.by_property[group].1;
        let mut j: usize = 0;
        while j < ids.len()
            invariant
                self.wf(),
                j <= ids@.len(),
                group < self.spec_index().len(),
                self.spec_index()[group as int].0 == property_id@,
                ids@ == self.spec_index()[group as int].1,
                start_date < end_date,
                forall|k: int|
                    0 <= k < j && self@[(#[trigger] ids@[k]) as int].status
                        != BookingStatus::Cancelled ==> !overlaps(
                        start_date as int,
                        end_date as int,
                        self@[ids@[k] as int].start_date,
                        self@[ids@[k] as int].end_date,
                    ),
            decreases ids@.len() - j,
        {
            let id = ids[j];
            proof {
                assert(group_wf(self@, property_id@, ids@));
                assert(self@[id as int].property_id == property_id@);
                assert(self.bookings.len() == self@.len());
                assert(id as usize as int == id as int);
                assert(self@[id as int] == self.bookings@[id as int]@);
            }
            let booking = &self.bookings[id as usize];
            if !matches!(booking.status, BookingStatus::Cancelled) {
                if !(end_date <= booking.start_date || start_date >= booking.end_date) {
                    proof {
                        assert(self@[id as int].status != BookingStatus::Cancelled);
                        assert(overlaps(
                            start_date as int,
                            end_date as int,
                            self@[id as int].start_date,
                            self@[id as int].end_date,
                        ));
                    }
                    return false;
                }
            }
            proof {
                assert forall|k: int|
                    0 <= k < j + 1 && self@[(#[trigger] ids@[k]) as int].status
                        != BookingStatus::Cancelled implies !overlaps(
                    start_date as int,
                    end_date as int,
                    self@[ids@[k] as int].start_date,
                    self@[ids@[k] as int].end_date,
                ) by {
                    if k == j {
                        assert(self@[id as int] == self.bookings@[id as int]@);
                    }
                }
            }
            j = j + 1;
        }
        proof {
            assert forall|i: int|
                0 <= i < self@.len() && (#[trigger] self@[i]).property_id == property_id@
                    && self@[i].status != BookingStatus::Cancelled implies !overlaps(
                start_date as int,
                end_date as int,
                self@[i].start_date,
                self@[i].end_date,
            ) by {
                assert(group_wf(self@, property_id@, ids@));
                assert(ids@.contains(i as u64));
                let k = choose|k: int| 0 <= k < ids@.len() && ids@[k] == i as u64;
                assert(self@[ids@[k] as int].status != BookingStatus::Cancelled);
            }
        }
        true
    }

    /// Create a new booking over `[start_date, end_date)` in status
    /// `Pending`, with no escrow reference, and return its id.
    ///
    /// Validation, in order, each a distinct fatal error: the interval must
    /// be non-empty, the price strictly positive, the start no earlier than
    /// `current_time`, and the interval free on this property (the same
    /// predicate as [`Self::check_availability`]). On success the booking is
    /// appended to the global index and to its property's group of the
    /// secondary index in one step; the ledger is unchanged on any error.
    ///
    /// `current_time` is the host clock reading under which the request is
    /// judged; the adapter that drives the engine supplies it.
    pub fn create_booking(
        &mut self,
        property_id: String,
        user_id: String,
        start_date: u64,
        end_date: u64,
        total_price: i128,
        current_time: u64,
    ) -> (r: Result<u64, BookingError>)
        requires
            old(self).wf(),
            old(self).spec_count() < u64::MAX,
        ensures
            final(self).wf(),
            r is Ok <==> (start_date < end_date && total_price > 0 && start_date >= current_time
                && spec_available(
                old(self)@,
                property_id@,
                start_date as int,
                end_date as int,
            )),
            match r {
                Ok(id) => {
                    &&& id == old(self)@.len()
                    &&& final(self)@ == old(self)@.push(
                        new_booking_model(
                            id as int,
                            property_id@,
                            user_id@,
                            start_date as int,
                            end_date as int,
                            total_price as int,
                        ),
                    )
                    &&& final(self).spec_count() == old(self).spec_count() + 1
                },
                Err(e) => {
                    &&& *final(self) == *old(self)
                    &&& e == (if start_date >= end_date {
                        BookingError::InvalidDateRange
                    } else if total_price <= 0 {
                        BookingError::InvalidPrice
                    } else if start_date < current_time {
                        BookingError::PastStartDate
                    } else {
                        BookingError::BookingOverlap
                    })
                },
            },
    {
        if start_date >= end_date {
            return Err(BookingError::InvalidDateRange);
        }
        if total_price <= 0 {
            return Err(BookingError::InvalidPrice);
        }
        if start_date < current_time {
            return Err(BookingError::PastStartDate);
        }
        if !self.check_availability(&property_id, start_date, end_date) {
            return Err(BookingError::BookingOverlap);
        }
        let ghost m0 = self@;
        let id = self.count;
        let booking = Booking {
            id,
            property_id: property_id.clone(),
            user_id,
            start_date,
            end_date,
            total_price,
            status: BookingStatus::Pending,
            escrow_id: None,
        };
        let ghost bm = booking@;
        self.bookings.push(booking);
        self.count = self.count + 1;
        proof {
            assert(self@ =~= m0.push(bm));
        }
        match self.find_group(&property_id) {
            Some(g) => {
                let ghost idx0 = self.spec_index();
                self.by_property[g].1.push(id);
                proof {
                    assert(self.spec_index() =~= idx0.update(
                        g as int,
                        (idx0[g as int].0, idx0[g as int].1.push(id)),
                    ));
                    lemma_index_after_create_existing(m0, idx0, bm, id, g as int);
                    lemma_disjoint_after_create(m0, bm);
                    assert forall|i: int| 0 <= i < self@.len() implies (#[trigger] self@[i]).id
                        == i && valid_booking(self@[i]) by {
                        if i < m0.len() {
                            assert(self@[i] == m0[i]);
                        } else {
                            assert(self@[i] == bm);
                        }
                    }
                    assert(self.wf());
                }
            },
            None => {
                let mut ids: Vec<u64> = Vec::new();
                ids.push(id);
                let ghost idx0 = self.spec_index();
                self.by_property.push((property_id, ids));
                proof {
                    assert(self.spec_index() =~= idx0.push((bm.property_id, seq![id])));
                    lemma_index_after_create_new(m0, idx0, bm, id);
                    lemma_disjoint_after_create(m0, bm);
                    assert forall|i: int| 0 <= i < self@.len() implies (#[trigger] self@[i]).id
                        == i && valid_booking(self@[i]) by {
                        if i < m0.len() {
                            assert(self@[i] == m0[i]);
                        } else {
                            assert(self@[i] == bm);
                        }
                    }
                    assert(self.wf());
                }
            },
        }
        Ok(id)
    }

    /// Look up the booking with the given id in the global index.
    ///
    /// Returns a field-identical copy of the stored booking, or `NotFound`
    /// exactly when no booking with this id was ever created.
    pub fn get_booking(&self, booking_id: u64) -> (r: Result<Booking, BookingError>)
        requires
            self.wf(),
        ensures
            r is Ok <==> booking_id < self@.len(),
            match r {
                Ok(b) => b@ == self@[booking_id as int],
                Err(e) => e == BookingError::NotFound,
            },
    {
        if booking_id >= self.bookings.len() as u64 {
            return Err(BookingError::NotFound);
        }
        Ok(self.bookings[booking_id as usize].clone())
    }

    /// Change the status of a booking along the transition table, and
    /// return the updated booking.
    ///
    /// Exactly `Pending -> Confirmed`, `Confirmed -> Completed`,
    /// `Pending -> Cancelled` and `Confirmed -> Cancelled` are applied; any
    /// other request fails with `InvalidTransition`, an unknown id with
    /// `NotFound`, and the ledger is then unchanged. Who may drive which
    /// transition is decided by the adapter that authenticates callers, not
    /// by the engine.
    pub fn update_status(&mut self, booking_id: u64, new_status: BookingStatus) -> (r: Result<
        Booking,
        BookingError,
    >)
        requires
            old(self).wf(),
        ensures
            final(self).wf(),
            final(self).spec_count() == old(self).spec_count(),
            r is Ok <==> (booking_id < old(self)@.len() && transition_allowed(
                old(self)@[booking_id as int].status,
                new_status,
            )),
            match r {
                Ok(b) => {
                    &&& b@ == old(self)@[booking_id as int].with_status(new_status)
                    &&& final(self)@ == old(self)@.update(booking_id as int, b@)
                },
                Err(e) => {
                    &&& *final(self) == *old(self)
                    &&& e == (if booking_id >= old(self)@.len() {
                        BookingError::NotFound
                    } else {
                        BookingError::InvalidTransition
                    })
                },
            },
    {
        if booking_id >= self.bookings.len() as u64 {
            return Err(BookingError::NotFound);
        }
        let idu = booking_id as usize;
        if !is_transition_allowed(self.bookings[idu].status, new_status) {
            return Err(BookingError::InvalidTransition);
        }
        let ghost m0 = self@;
        let b = &mut self.bookings[idu];
        b.status = new_status;
        proof {
            self.lemma_wf_after_field_update(m0, booking_id as int);
        }
        Ok(self.bookings[idu].clone())
    }

    /// Cancel a booking on behalf of its owner.
    ///
    /// Only the user recorded on the booking may cancel it (`Unauthorized`
    /// otherwise), and only while it is `Pending` or `Confirmed`
    /// (`InvalidStatus` once terminal); an unknown id fails with `NotFound`.
    /// On success the status becomes `Cancelled` — the booking is kept, not
    /// deleted, and no longer blocks the interval. On any error the ledger,
    /// and in particular the booking's status, is unchanged.
    pub fn cancel_booking(&mut self, booking_id: u64, user_id: &String) -> (r: Result<
        bool,
        BookingError,
    >)
        requires
            old(self).wf(),
        ensures
            final(self).wf(),
            final(self).spec_count() == old(self).spec_count(),
            r is Ok <==> (booking_id < old(self)@.len() && old(self)@[booking_id as int].user_id
                == user_id@ && (old(self)@[booking_id as int].status == BookingStatus::Pending
                || old(self)@[booking_id as int].status == BookingStatus::Confirmed)),
            match r {
                Ok(ok) => {
                    &&& ok
                    &&& final(self)@ == old(self)@.update(
                        booking_id as int,
                        old(self)@[booking_id as int].with_status(BookingStatus::Cancelled),
                    )
                },
                Err(e) => {
                    &&& *final(self) == *old(self)
                    &&& e == (if booking_id >= old(self)@.len() {
                        BookingError::NotFound
                    } else if old(self)@[booking_id as int].user_id != user_id@ {
                        BookingError::Unauthorized
                    } else {
                        BookingError::InvalidStatus
                    })
                },
            },
    {
        if booking_id >= self.bookings.len() as u64 {
            return Err(BookingError::NotFound);
        }
        let idu = booking_id as usize;
        if !(self.bookings[idu].user_id == *user_id) {
            return Err(BookingError::Unauthorized);
        }
        if matches!(self.bookings[idu].status, BookingStatus::Completed | BookingStatus::Cancelled) {
            return Err(BookingError::InvalidStatus);
        }
        let ghost m0 = self@;
        let b = &mut self.bookings[idu];
        b.status = BookingStatus::Cancelled;
        proof {
            self.lemma_wf_after_field_update(m0, booking_id as int);
        }
        Ok(true)
    }

    /// Attach an escrow reference to a booking.
    ///
    /// Sets the booking's `escrow_id` and leaves every other field alone;
    /// an unknown id fails with `NotFound` and changes nothing. Meant to be
    /// driven by the escrow subsystem; the engine does not verify that the
    /// caller is in fact that subsystem.
    pub fn set_escrow_id(&mut self, booking_id: u64, escrow_id: String) -> (r: Result<
        bool,
        BookingError,
    >)
        requires
            old(self).wf(),
        ensures
            final(self).wf(),
            final(self).spec_count() == old(self).spec_count(),
            r is Ok <==> booking_id < old(self)@.len(),
            match r {
                Ok(ok) => {
                    &&& ok
                    &&& final(self)@ == old(self)@.update(
                        booking_id as int,
                        old(self)@[booking_id as int].with_escrow(Some(escrow_id@)),
                    )
                },
                Err(e) => {
                    &&& *final(self) == *old(self)
                    &&& e == BookingError::NotFound
                },
            },
    {
        if booking_id >= self.bookings.len() as u64 {
            return Err(BookingError::NotFound);
        }
        let idu = booking_id as usize;
        let ghost m0 = self@;
        let b = &mut self.bookings[idu];
        b.escrow_id = Some(escrow_id);
        proof {
            self.lemma_wf_after_field_update(m0, booking_id as int);
        }
        Ok(true)
    }

    /// All bookings of one property, in insertion (= id) order.
    ///
    /// A property without bookings yields the empty vector; this is not an
    /// error. The result is exactly the per-property listing of the global
    /// index: see [`listing_of`].
    pub fn get_property_bookings(&self, property_id: &String) -> (r: Vec<Booking>)
        requires
            self.wf(),
        ensures
            listing_of(self@, property_id@, r@.map_values(|b: Booking| b@)),
    {
        let mut result: Vec<Booking> = Vec::new();
        let group = match self.find_group(property_id) {
            Some(g) => g,
            None => {
                proof {
                    assert forall|i: int|
                        0 <= i < self@.len() && (#[trigger] self@[i]).property_id
                            == property_id@ implies false by {
                        let g = choose|g: int|
                            0 <= g < self.spec_index().len() && (#[trigger] self.spec_index()[g]).0
                                == self@[i].property_id;
                    }
                }
                return result;
            },
        };
        let ids = &self.by_property[group].1;
        let mut j: usize = 0;
        while j < ids.len()
            invariant
                self.wf(),
                j <= ids@.len(),
                group < self.spec_index().len(),
                self.spec_index()[group as int].0 == property_id@,
                ids@ == self.spec_index()[group as int].1,
                result@.len() == j,
                forall|k: int|
                    0 <= k < j ==> (#[trigger] result@[k])@ == self@[ids@[k] as int],
            decreases ids@.len() - j,
        {
            let id = ids[j];
            proof {
                assert(group_wf(self@, property_id@, ids@));
                assert(self.bookings.len() == self@.len());
                assert(id as usize as int == id as int);
                assert(self@[id as int] == self.bookings@[id as int]@);
            }
            result.push(self.bookings[id as usize].clone());
            j = j + 1;
        }
        proof {
            let rm = result@.map_values(|b: Booking| b@);
            assert(group_wf(self@, property_id@, ids@));
            assert forall|k: int| 0 <= k < rm.len() implies 0 <= (#[trigger] rm[k]).id
                < self@.len() && rm[k] == self@[rm[k].id] && rm[k].property_id == property_id@ by {
                assert(rm[k] == self@[ids@[k] as int]);
                assert(self@[ids@[k] as int].id == ids@[k] as int);
            }
            assert forall|k: int, l: int| 0 <= k < l < rm.len() implies rm[k].id < rm[l].id by {
                assert(rm[k] == self@[ids@[k] as int]);
                assert(rm[l] == self@[ids@[l] as int]);
                assert(ids@[k] < ids@[l]);
            }
            assert forall|i: int|
                0 <= i < self@.len() && (#[trigger] self@[i]).property_id
                    == property_id@ implies exists|k: int|
                0 <= k < rm.len() && (#[trigger] rm[k]).id == i by {
                assert(ids@.contains(i as u64));
                let k = choose|k: int| 0 <= k < ids@.len() && ids@[k] == i as u64;
                assert(rm[k] == self@[ids@[k] as int]);
                assert(rm[k].id == i);
            }
        }
        result
    }

    /// Re-establish well-formedness after one booking's status or escrow
    /// field changed in place: its identity, property, interval and price
    /// are unchanged, and it was not resurrected from `Cancelled`.
    proof fn lemma_wf_after_field_update(self, m0: Seq<BookingModel>, i: int)
        requires
            0 <= i < m0.len(),
            m0.len() == self@.len(),
            self.spec_count() == m0.len(),
            forall|k: int| 0 <= k < m0.len() && k != i ==> self@[k] == m0[k],
            self@[i].id == m0[i].id,
            self@[i].property_id == m0[i].property_id,
            self@[i].user_id == m0[i].user_id,
            self@[i].start_date == m0[i].start_date,
            self@[i].end_date == m0[i].end_date,
            self@[i].total_price == m0[i].total_price,
            self@[i].status != BookingStatus::Cancelled ==> m0[i].status
                != BookingStatus::Cancelled,
            forall|k: int| 0 <= k < m0.len() ==> (#[trigger] m0[k]).id == k,
            forall|k: int| 0 <= k < m0.len() ==> valid_booking(#[trigger] m0[k]),
            non_cancelled_disjoint(m0),
            index_ok(m0, self.spec_index()),
        ensures
            self.wf(),
    {
        let m1 = self@;
        let idx = self.spec_index();
        assert forall|k: int| 0 <= k < m1.len() implies (#[trigger] m1[k]).id == k
            && valid_booking(m1[k]) by {
            if k != i {
                assert(m1[k] == m0[k]);
            }
        }
        assert forall|a: int, b: int|
            0 <= a < m1.len() && 0 <= b < m1.len() && a != b && (#[trigger] m1[a]).property_id == (
            #[trigger] m1[b]).property_id && m1[a].status != BookingStatus::Cancelled
            && m1[b].status != BookingStatus::Cancelled implies !overlaps(
            m1[a].start_date,
            m1[a].end_date,
            m1[b].start_date,
            m1[b].end_date,
        ) by {
            assert(m0[a].property_id == m1[a].property_id);
            assert(m0[b].property_id == m1[b].property_id);
            assert(m0[a].status != BookingStatus::Cancelled);
            assert(m0[b].status != BookingStatus::Cancelled);
        }
        assert forall|g: int| 0 <= g < idx.len() implies group_wf(
            m1,
            (#[trigger] idx[g]).0,
            idx[g].1,
        ) by {
            assert(group_wf(m0, idx[g].0, idx[g].1));
            let ids = idx[g].1;
            assert forall|j: int| 0 <= j < ids.len() implies (#[trigger] ids[j]) < m1.len()
                && m1[ids[j] as int].property_id == idx[g].0 by {
                assert(m0[ids[j] as int].property_id == idx[g].0);
            }
            assert forall|k: int|
                0 <= k < m1.len() && (#[trigger] m1[k]).property_id == idx[g].0 implies ids
                .contains(k as u64) by {
                assert(m0[k].property_id == idx[g].0);
            }
        }
        assert forall|k: int| 0 <= k < m1.len() implies exists|g: int|
            0 <= g < idx.len() && (#[trigger] idx[g]).0 == (#[trigger] m1[k]).property_id by {
            let g = choose|g: int|
                0 <= g < idx.len() && (#[trigger] idx[g]).0 == m0[k].property_id;
            assert(idx[g].0 == m1[k].property_id);
        }
    }
}

/// Does the transition table allow `from -> to`?
fn is_transition_allowed(from: BookingStatus, to: BookingStatus) -> (r: bool)
    ensures
        r == transition_allowed(from, to),
{
    match (from, to) {
        (BookingStatus::Pending, BookingStatus::Confirmed) => true,
        (BookingStatus::Confirmed, BookingStatus::Completed) => true,
        (BookingStatus::Pending, BookingStatus::Cancelled) => true,
        (BookingStatus::Confirmed, BookingStatus::Cancelled) => true,
        _ => false,
    }
}

impl BookingModel {
    /// The same booking with `status` replaced.
    pub open spec fn with_status(self, status: BookingStatus) -> BookingModel {
        BookingModel { status, ..self }
    }

    /// The same booking with `escrow_id` replaced.
    pub open spec fn with_escrow(self, escrow_id: Option<Seq<char>>) -> BookingModel {
        BookingModel { escrow_id, ..self }
    }
}

/// `r` is exactly the per-property listing of `m` for property `pid`:
/// every listed booking is the global entry under its own id and belongs
/// to `pid`, ids strictly increase (insertion order), and every booking of
/// `pid` in `m` is listed.
pub open spec fn listing_of(m: Seq<BookingModel>, pid: Seq<char>, r: Seq<BookingModel>) -> bool {
    &&& forall|j: int|
        0 <= j < r.len() ==> 0 <= (#[trigger] r[j]).id < m.len() && r[j] == m[r[j].id]
            && r[j].property_id == pid
    &&& forall|j: int, k: int| 0 <= j < k < r.len() ==> r[j].id < r[k].id
    &&& forall|i: int|
        0 <= i < m.len() && (#[trigger] m[i]).property_id == pid ==> exists|j: int|
            0 <= j < r.len() && (#[trigger] r[j]).id == i
}

/// The model of a booking as [`BookingContract::create_booking`] constructs
/// it: freshly created, `Pending`, with no escrow reference.
pub open spec fn new_booking_model(
    id: int,
    pid: Seq<char>,
    uid: Seq<char>,
    start: int,
    end: int,
    price: int,
) -> BookingModel {
    BookingModel {
        id,
        property_id: pid,
        user_id: uid,
        start_date: start,
        end_date: end,
        total_price: price,
        status: BookingStatus::Pending,
        escrow_id: None,
    }
}

/// Law: in any well-formed ledger — so after any sequence of successful
/// operations on a freshly initialized one — the half-open intervals of the
/// non-cancelled bookings of each property are pairwise disjoint.
pub proof fn lemma_ledger_disjoint(s: BookingContract)
    requires
        s.wf(),
    ensures
        non_cancelled_disjoint(s@),
{
}

/// Law: index consistency. Any booking of a per-property listing (as
/// [`BookingContract::get_property_bookings`] returns it) is field-identical
/// to the booking stored in the global index under the same id (as
/// [`BookingContract::get_booking`] returns it), and belongs to the listed
/// property.
pub proof fn lemma_index_consistency(
    m: Seq<BookingModel>,
    pid: Seq<char>,
    r: Seq<BookingModel>,
    j: int,
)
    requires
        listing_of(m, pid, r),
        0 <= j < r.len(),
    ensures
        0 <= r[j].id < m.len(),
        r[j] == m[r[j].id],
        r[j].property_id == pid,
{
}

/// Law: `Completed` and `Cancelled` are terminal. The transition table
/// admits no change out of either, so a completed or cancelled booking can
/// never change status again.
pub proof fn lemma_terminal_statuses(from: BookingStatus, to: BookingStatus)
    requires
        from == BookingStatus::Completed || from == BookingStatus::Cancelled,
    ensures
        !transition_allowed(from, to),
{
}

/// Law: half-open interval semantics. Two intervals that merely touch at a
/// boundary — one ends exactly where the other starts — do not overlap, so
/// back-to-back bookings are allowed.
pub proof fn lemma_touching_intervals_disjoint(s1: int, e1: int, s2: int, e2: int)
    requires
        e1 <= s2,
    ensures
        !overlaps(s1, e1, s2, e2),
        !overlaps(s2, e2, s1, e1),
{
}

/// Law: cancellation frees the interval. In a ledger whose non-cancelled
/// intervals are pairwise disjoint, cancelling a booking makes its exact
/// interval available on its property again: the cancelled copy is excluded
/// from overlap checks, and disjointness already kept every other live
/// booking of the property clear of it.
pub proof fn lemma_cancel_frees_interval(m: Seq<BookingModel>, i: int)
    requires
        0 <= i < m.len(),
        non_cancelled_disjoint(m),
        m[i].status != BookingStatus::Cancelled,
        m[i].start_date < m[i].end_date,
    ensures
        spec_available(
            m.update(i, m[i].with_status(BookingStatus::Cancelled)),
            m[i].property_id,
            m[i].start_date,
            m[i].end_date,
        ),
{
    let m1 = m.update(i, m[i].with_status(BookingStatus::Cancelled));
    assert forall|j: int|
        0 <= j < m1.len() && (#[trigger] m1[j]).property_id == m[i].property_id && m1[j].status
            != BookingStatus::Cancelled implies !overlaps(
        m[i].start_date,
        m[i].end_date,
        m1[j].start_date,
        m1[j].end_date,
    ) by {
        assert(j != i);
        assert(m1[j] == m[j]);
        assert(m[j].status != BookingStatus::Cancelled);
    }
}

/// Appending a booking whose interval is free on its property preserves
/// pairwise disjointness of non-cancelled intervals.
proof fn lemma_disjoint_after_create(m0: Seq<BookingModel>, bm: BookingModel)
    requires
        non_cancelled_disjoint(m0),
        spec_available(m0, bm.property_id, bm.start_date, bm.end_date),
    ensures
        non_cancelled_disjoint(m0.push(bm)),
{
    let m1 = m0.push(bm);
    assert forall|i: int, j: int|
        0 <= i < m1.len() && 0 <= j < m1.len() && i != j && (#[trigger] m1[i]).property_id == (
        #[trigger] m1[j]).property_id && m1[i].status != BookingStatus::Cancelled && m1[j].status
            != BookingStatus::Cancelled implies !overlaps(
        m1[i].start_date,
        m1[i].end_date,
        m1[j].start_date,
        m1[j].end_date,
    ) by {
        if i < m0.len() && j < m0.len() {
            assert(m1[i] == m0[i]);
            assert(m1[j] == m0[j]);
        } else if i == m0.len() {
            assert(m1[i] == bm);
            assert(m1[j] == m0[j]);
        } else {
            assert(m1[i] == m0[i]);
            assert(m1[j] == bm);
        }
    }
}

/// Appending a booking and its id to the existing group of its property
/// keeps the secondary index faithful to the global one.
proof fn lemma_index_after_create_existing(
    m0: Seq<BookingModel>,
    idx0: Seq<(Seq<char>, Seq<u64>)>,
    bm: BookingModel,
    nid: u64,
    g: int,
)
    requires
        index_ok(m0, idx0),
        nid as int == m0.len(),
        bm.id == m0.len(),
        0 <= g < idx0.len(),
        idx0[g].0 == bm.property_id,
    ensures
        index_ok(m0.push(bm), idx0.update(g, (idx0[g].0, idx0[g].1.push(nid)))),
{
    let m1 = m0.push(bm);
    let idx1 = idx0.update(g, (idx0[g].0, idx0[g].1.push(nid)));
    assert forall|a: int, b: int| 0 <= a < b < idx1.len() implies (#[trigger] idx1[a]).0 != (
    #[trigger] idx1[b]).0 by {
        assert(idx1[a].0 == idx0[a].0);
        assert(idx1[b].0 == idx0[b].0);
    }
    assert forall|h: int| 0 <= h < idx1.len() implies group_wf(
        m1,
        (#[trigger] idx1[h]).0,
        idx1[h].1,
    ) by {
        assert(group_wf(m0, idx0[h].0, idx0[h].1));
        let ids0 = idx0[h].1;
        if h == g {
            let ids1 = ids0.push(nid);
            assert(idx1[h].1 == ids1);
            assert forall|j: int| 0 <= j < ids1.len() implies (#[trigger] ids1[j]) < m1.len()
                && m1[ids1[j] as int].property_id == idx1[h].0 by {
                if j < ids0.len() {
                    assert(ids1[j] == ids0[j]);
                    assert(m1[ids0[j] as int] == m0[ids0[j] as int]);
                } else {
                    assert(ids1[j] == nid);
                    assert(m1[nid as int] == bm);
                }
            }
            assert forall|j: int, k: int| 0 <= j < k < ids1.len() implies ids1[j] < ids1[k] by {
                if k < ids0.len() {
                    assert(ids1[j] == ids0[j] && ids1[k] == ids0[k]);
                } else {
                    assert(ids1[j] == ids0[j]);
                    assert(ids0[j] < m0.len());
                    assert(ids1[k] == nid);
                }
            }
            assert forall|i: int|
                0 <= i < m1.len() && (#[trigger] m1[i]).property_id == idx1[h].0 implies ids1
                .contains(i as u64) by {
                if i < m0.len() {
                    assert(m0[i].property_id == idx0[h].0);
                    assert(ids0.contains(i as u64));
                    let j = choose|j: int| 0 <= j < ids0.len() && ids0[j] == i as u64;
                    assert(ids1[j] == i as u64);
                } else {
                    assert(ids1[ids1.len() - 1] == nid);
                    assert(i as u64 == nid);
                }
            }
        } else {
            assert(idx1[h] == idx0[h]);
            assert forall|j: int| 0 <= j < ids0.len() implies (#[trigger] ids0[j]) < m1.len()
                && m1[ids0[j] as int].property_id == idx1[h].0 by {
                assert(m1[ids0[j] as int] == m0[ids0[j] as int]);
            }
            assert forall|i: int|
                0 <= i < m1.len() && (#[trigger] m1[i]).property_id == idx1[h].0 implies ids0
                .contains(i as u64) by {
                if i < m0.len() {
                    assert(m0[i].property_id == idx0[h].0);
                } else {
                    assert(m1[i] == bm);
                    if h < g {
                        assert(idx0[h].0 != idx0[g].0);
                    } else {
                        assert(idx0[g].0 != idx0[h].0);
                    }
                }
            }
        }
    }
    assert forall|i: int| 0 <= i < m1.len() implies exists|h: int|
        0 <= h < idx1.len() && (#[trigger] idx1[h]).0 == (#[trigger] m1[i]).property_id by {
        if i < m0.len() {
            assert(m1[i] == m0[i]);
            let h = choose|h: int| 0 <= h < idx0.len() && (#[trigger] idx0[h]).0
                == m0[i].property_id;
            assert(idx1[h].0 == idx0[h].0);
        } else {
            assert(m1[i] == bm);
            assert(idx1[g].0 == bm.property_id);
        }
    }
}

/// Appending a booking of a property that had none, together with a fresh
/// one-id group for it, keeps the secondary index faithful to the global
/// one.
proof fn lemma_index_after_create_new(
    m0: Seq<BookingModel>,
    idx0: Seq<(Seq<char>, Seq<u64>)>,
    bm: BookingModel,
    nid: u64,
)
    requires
        index_ok(m0, idx0),
        nid as int == m0.len(),
        bm.id == m0.len(),
        forall|g: int| 0 <= g < idx0.len() ==> (#[trigger] idx0[g]).0 != bm.property_id,
    ensures
        index_ok(m0.push(bm), idx0.push((bm.property_id, seq![nid]))),
{
    let m1 = m0.push(bm);
    let idx1 = idx0.push((bm.property_id, seq![nid]));
    let gnew = idx0.len() as int;
    assert forall|a: int, b: int| 0 <= a < b < idx1.len() implies (#[trigger] idx1[a]).0 != (
    #[trigger] idx1[b]).0 by {
        if b < idx0.len() {
            assert(idx1[a].0 == idx0[a].0 && idx1[b].0 == idx0[b].0);
        } else {
            assert(idx1[a].0 == idx0[a].0);
            assert(idx1[b].0 == bm.property_id);
        }
    }
    assert forall|h: int| 0 <= h < idx1.len() implies group_wf(
        m1,
        (#[trigger] idx1[h]).0,
        idx1[h].1,
    ) by {
        if h < idx0.len() {
            assert(idx1[h] == idx0[h]);
            assert(group_wf(m0, idx0[h].0, idx0[h].1));
            let ids0 = idx0[h].1;
            assert forall|j: int| 0 <= j < ids0.len() implies (#[trigger] ids0[j]) < m1.len()
                && m1[ids0[j] as int].property_id == idx1[h].0 by {
                assert(m1[ids0[j] as int] == m0[ids0[j] as int]);
            }
            assert forall|i: int|
                0 <= i < m1.len() && (#[trigger] m1[i]).property_id == idx1[h].0 implies ids0
                .contains(i as u64) by {
                if i < m0.len() {
                    assert(m0[i].property_id == idx0[h].0);
                } else {
                    assert(m1[i] == bm);
                }
            }
        } else {
            assert(idx1[h].0 == bm.property_id);
            assert(idx1[h].1 == seq![nid]);
            assert(seq![nid][0] == nid);
            assert(m1[nid as int] == bm);
            assert forall|i: int|
                0 <= i < m1.len() && (#[trigger] m1[i]).property_id == bm.property_id implies seq![
                nid,
            ].contains(i as u64) by {
                if i < m0.len() {
                    assert(m0[i].property_id == bm.property_id);
                    let gother = choose|gg: int|
                        0 <= gg < idx0.len() && (#[trigger] idx0[gg]).0 == m0[i].property_id;
                    assert(false);
                } else {
                    assert(i as u64 == nid);
                    assert(seq![nid][0] == i as u64);
                }
            }
        }
    }
    assert forall|i: int| 0 <= i < m1.len() implies exists|h: int|
        0 <= h < idx1.len() && (#[trigger] idx1[h]).0 == (#[trigger] m1[i]).property_id by {
        if i < m0.len() {
            assert(m1[i] == m0[i]);
            let h = choose|h: int| 0 <= h < idx0.len() && (#[trigger] idx0[h]).0
                == m0[i].property_id;
            assert(idx1[h].0 == idx0[h].0);
        } else {
            assert(m1[i] == bm);
            assert(idx1[gnew].0 == bm.property_id);
        }
    }
}

} // verus!
