use booking_ledger::booking::{Booking, BookingContract, BookingError, BookingStatus};

// Timestamps used throughout: seconds since the epoch.
// 1703980800 = Dec 31, 2023; 1704067200 = Jan 1, 2024; 1704153600 = Jan 2, 2024;
// 1704240000 = Jan 3, 2024; 1704326400 = Jan 4, 2024.

#[test]
fn test_initialize() {
    let mut client = BookingContract::initialize();

    // Verify initialization by attempting to create a booking.
    let property_id = "PROP1".to_string();
    let user_id = "USER1".to_string();
    let start_date = 1704067200u64;
    let end_date = 1704153600u64;
    let total_price = 1000000000i128;

    let booking_id = client
        .create_booking(property_id, user_id, start_date, end_date, total_price, 0)
        .unwrap();
    assert_eq!(booking_id, 0u64);
}

#[test]
fn test_check_availability_empty() {
    let client = BookingContract::initialize();

    let property_id = "PROP1".to_string();
    let start_date = 1704067200u64;
    let end_date = 1704153600u64;

    // Should be available when no bookings exist.
    assert!(client.check_availability(&property_id, start_date, end_date));
}

#[test]
fn test_create_booking_success() {
    let now = 1703980800u64;
    let mut client = BookingContract::initialize();

    let property_id = "PROP1".to_string();
    let user_id = "USER1".to_string();
    let start_date = 1704067200u64;
    let end_date = 1704153600u64;
    let total_price = 1000000000i128;

    let booking_id = client
        .create_booking(
            property_id.clone(),
            user_id.clone(),
            start_date,
            end_date,
            total_price,
            now,
        )
        .unwrap();
    assert_eq!(booking_id, 0u64);

    // Verify the booking was created.
    let booking = client.get_booking(booking_id).unwrap();
    assert_eq!(booking.property_id, property_id);
    assert_eq!(booking.user_id, user_id);
    assert_eq!(booking.start_date, start_date);
    assert_eq!(booking.end_date, end_date);
    assert_eq!(booking.total_price, total_price);
    assert_eq!(booking.status, BookingStatus::Pending);
}

#[test]
fn test_booking_overlap_prevention() {
    let now = 1703980800u64;
    let mut client = BookingContract::initialize();

    let property_id = "PROP1".to_string();
    let user_id1 = "USER1".to_string();
    let user_id2 = "USER2".to_string();

    // Create the first booking: Jan 1 to Jan 3.
    let start_date1 = 1704067200u64;
    let end_date1 = 1704240000u64;
    let total_price = 2000000000i128;

    client
        .create_booking(
            property_id.clone(),
            user_id1,
            start_date1,
            end_date1,
            total_price,
            now,
        )
        .unwrap();

    // An overlapping booking (starts during the first) must be rejected.
    let start_date2 = 1704153600u64;
    let end_date2 = 1704326400u64;

    let result = client.create_booking(
        property_id,
        user_id2,
        start_date2,
        end_date2,
        total_price,
        now,
    );
    assert_eq!(result, Err(BookingError::BookingOverlap));
}

#[test]
fn test_non_overlapping_bookings() {
    let now = 1703980800u64;
    let mut client = BookingContract::initialize();

    let property_id = "PROP1".to_string();
    let user_id1 = "USER1".to_string();
    let user_id2 = "USER2".to_string();
    let total_price = 1000000000i128;

    // First booking: Jan 1 to Jan 2.
    let start_date1 = 1704067200u64;
    let end_date1 = 1704153600u64;

    let booking_id1 = client
        .create_booking(
            property_id.clone(),
            user_id1,
            start_date1,
            end_date1,
            total_price,
            now,
        )
        .unwrap();
    assert_eq!(booking_id1, 0u64);

    // A booking that starts exactly when the first ends succeeds
    // (half-open intervals: touching boundaries do not overlap).
    let start_date2 = 1704153600u64;
    let end_date2 = 1704240000u64;

    let booking_id2 = client
        .create_booking(
            property_id,
            user_id2,
            start_date2,
            end_date2,
            total_price,
            now,
        )
        .unwrap();
    assert_eq!(booking_id2, 1u64);
}

#[test]
fn test_cancel_booking_success() {
    let now = 1703980800u64;
    let mut client = BookingContract::initialize();

    let property_id = "PROP1".to_string();
    let user_id = "USER1".to_string();
    let start_date = 1704067200u64;
    let end_date = 1704153600u64;
    let total_price = 1000000000i128;

    let booking_id = client
        .create_booking(
            property_id.clone(),
            user_id.clone(),
            start_date,
            end_date,
            total_price,
            now,
        )
        .unwrap();

    let result = client.cancel_booking(booking_id, &user_id).unwrap();
    assert!(result);

    // Verify the booking status is cancelled.
    let booking = client.get_booking(booking_id).unwrap();
    assert_eq!(booking.status, BookingStatus::Cancelled);

    // The same dates can be booked again after cancellation.
    let user_id2 = "USER2".to_string();
    client
        .create_booking(property_id, user_id2, start_date, end_date, total_price, now)
        .unwrap();
}

#[test]
fn test_cancel_booking_unauthorized() {
    let now = 1703980800u64;
    let mut client = BookingContract::initialize();

    let property_id = "PROP1".to_string();
    let user_id1 = "USER1".to_string();
    let user_id2 = "USER2".to_string();
    let start_date = 1704067200u64;
    let end_date = 1704153600u64;
    let total_price = 1000000000i128;

    let booking_id = client
        .create_booking(property_id, user_id1, start_date, end_date, total_price, now)
        .unwrap();

    // Cancelling with a different user must be rejected, and the booking's
    // status must be unchanged.
    let result = client.cancel_booking(booking_id, &user_id2);
    assert_eq!(result, Err(BookingError::Unauthorized));
    let booking = client.get_booking(booking_id).unwrap();
    assert_eq!(booking.status, BookingStatus::Pending);
}

#[test]
fn test_update_status() {
    let now = 1703980800u64;
    let mut client = BookingContract::initialize();

    let property_id = "PROP1".to_string();
    let user_id = "USER1".to_string();
    let start_date = 1704067200u64;
    let end_date = 1704153600u64;
    let total_price = 1000000000i128;

    let booking_id = client
        .create_booking(property_id, user_id, start_date, end_date, total_price, now)
        .unwrap();

    // Update to confirmed.
    let updated_booking = client
        .update_status(booking_id, BookingStatus::Confirmed)
        .unwrap();
    assert_eq!(updated_booking.status, BookingStatus::Confirmed);

    // Update to completed.
    let updated_booking = client
        .update_status(booking_id, BookingStatus::Completed)
        .unwrap();
    assert_eq!(updated_booking.status, BookingStatus::Completed);
}

#[test]
fn test_invalid_status_transition() {
    let now = 1703980800u64;
    let mut client = BookingContract::initialize();

    let property_id = "PROP1".to_string();
    let user_id = "USER1".to_string();
    let start_date = 1704067200u64;
    let end_date = 1704153600u64;
    let total_price = 1000000000i128;

    let booking_id = client
        .create_booking(property_id, user_id, start_date, end_date, total_price, now)
        .unwrap();

    // Pending -> Completed skips Confirmed and must be rejected.
    let result = client.update_status(booking_id, BookingStatus::Completed);
    assert_eq!(result.unwrap_err(), BookingError::InvalidTransition);
}

#[test]
fn test_get_property_bookings() {
    let now = 1703980800u64;
    let mut client = BookingContract::initialize();

    let property_id = "PROP1".to_string();
    let user_id1 = "USER1".to_string();
    let user_id2 = "USER2".to_string();
    let total_price = 1000000000i128;

    // Create multiple bookings for the same property.
    let start_date1 = 1704067200u64;
    let end_date1 = 1704153600u64;
    client
        .create_booking(
            property_id.clone(),
            user_id1.clone(),
            start_date1,
            end_date1,
            total_price,
            now,
        )
        .unwrap();

    let start_date2 = 1704240000u64;
    let end_date2 = 1704326400u64;
    client
        .create_booking(
            property_id.clone(),
            user_id2.clone(),
            start_date2,
            end_date2,
            total_price,
            now,
        )
        .unwrap();

    // Get all bookings for the property.
    let bookings = client.get_property_bookings(&property_id);
    assert_eq!(bookings.len(), 2);

    // Verify both bookings are present, in insertion order.
    assert_eq!(bookings[0].user_id, user_id1);
    assert_eq!(bookings[1].user_id, user_id2);
}

#[test]
fn test_invalid_dates() {
    let now = 1704067200u64;
    let mut client = BookingContract::initialize();

    let property_id = "PROP1".to_string();
    let user_id = "USER1".to_string();
    let total_price = 1000000000i128;

    // End date before start date must be rejected.
    let start_date = 1704153600u64;
    let end_date = 1704067200u64;

    let result = client.create_booking(property_id, user_id, start_date, end_date, total_price, now);
    assert_eq!(result, Err(BookingError::InvalidDateRange));
}

#[test]
fn test_invalid_price() {
    let now = 1703980800u64;
    let mut client = BookingContract::initialize();

    let property_id = "PROP1".to_string();
    let user_id = "USER1".to_string();
    let start_date = 1704067200u64;
    let end_date = 1704153600u64;

    // Zero price must be rejected.
    let result = client.create_booking(property_id, user_id, start_date, end_date, 0i128, now);
    assert_eq!(result, Err(BookingError::InvalidPrice));
}

#[test]
fn test_set_escrow_id() {
    let now = 1703980800u64;
    let mut client = BookingContract::initialize();

    let property_id = "PROP1".to_string();
    let user_id = "USER1".to_string();
    let start_date = 1704067200u64;
    let end_date = 1704153600u64;
    let total_price = 1000000000i128;

    let booking_id = client
        .create_booking(property_id, user_id, start_date, end_date, total_price, now)
        .unwrap();

    // Attach an escrow reference.
    let escrow_id = "ESCROW123".to_string();
    let result = client.set_escrow_id(booking_id, escrow_id.clone()).unwrap();
    assert!(result);

    // Verify the escrow reference was stored.
    let booking = client.get_booking(booking_id).unwrap();
    assert_eq!(booking.escrow_id, Some(escrow_id));
}

#[test]
fn test_booking_not_found() {
    let client = BookingContract::initialize();

    let booking_id = 999u64;

    let result = client.get_booking(booking_id);
    assert_eq!(result.unwrap_err(), BookingError::NotFound);
}

#[test]
fn test_past_start_date() {
    // The clock already stands at Jan 1, 2024; a booking starting Dec 31,
    // 2023 must be rejected as retroactive.
    let now = 1704067200u64;
    let mut client = BookingContract::initialize();

    let result = client.create_booking(
        "PROP1".to_string(),
        "USER1".to_string(),
        1703980800u64,
        1704153600u64,
        1000000000i128,
        now,
    );
    assert_eq!(result, Err(BookingError::PastStartDate));
}

#[test]
fn test_availability_empty_interval() {
    // An empty or inverted interval is never available, even on a property
    // without bookings.
    let client = BookingContract::initialize();
    let property_id = "PROP1".to_string();
    assert!(!client.check_availability(&property_id, 1704067200, 1704067200));
    assert!(!client.check_availability(&property_id, 1704153600, 1704067200));
}

#[test]
fn test_overlap_mid_interval() {
    // One-day booking from Jan 1, then a request starting at noon the same
    // day: rejected; the ledger never holds two overlapping live bookings.
    let mut client = BookingContract::initialize();
    let property_id = "PROP1".to_string();

    client
        .create_booking(
            property_id.clone(),
            "USER1".to_string(),
            1704067200,
            1704153600,
            100,
            0,
        )
        .unwrap();
    let result = client.create_booking(
        property_id,
        "USER2".to_string(),
        1704110400,
        1704240000,
        100,
        0,
    );
    assert_eq!(result, Err(BookingError::BookingOverlap));
}

fn intervals_disjoint(a: &Booking, b: &Booking) -> bool {
    a.end_date <= b.start_date || a.start_date >= b.end_date
}

#[test]
fn test_disjointness_after_creates() {
    // After any sequence of create attempts (some rejected) and a
    // cancellation, the non-cancelled bookings of each property are
    // pairwise disjoint.
    let mut client = BookingContract::initialize();
    let prop_a = "PROPA".to_string();
    let prop_b = "PROPB".to_string();

    let attempts: [(&str, u64, u64); 6] = [
        ("PROPA", 100, 200),
        ("PROPA", 150, 250),
        ("PROPA", 200, 300),
        ("PROPB", 120, 220),
        ("PROPB", 50, 130),
        ("PROPA", 250, 400),
    ];
    for (prop, start, end) in attempts.iter() {
        let _ = client.create_booking(
            prop.to_string(),
            "USER1".to_string(),
            *start,
            *end,
            10,
            0,
        );
    }
    // Cancel one and fill the freed slot.
    client.cancel_booking(0, &"USER1".to_string()).unwrap();
    client
        .create_booking(prop_a.clone(), "USER2".to_string(), 100, 200, 10, 0)
        .unwrap();

    for prop in [&prop_a, &prop_b] {
        let bookings = client.get_property_bookings(prop);
        let live: Vec<&Booking> = bookings
            .iter()
            .filter(|b| b.status != BookingStatus::Cancelled)
            .collect();
        for i in 0..live.len() {
            for j in 0..live.len() {
                if i != j {
                    assert!(intervals_disjoint(live[i], live[j]));
                }
            }
        }
    }
}

#[test]
fn test_index_consistency_after_mutations() {
    // After a mix of successful mutations, every booking read through the
    // per-property listing is field-identical to the booking read through
    // the global index, and the listing is complete.
    let mut client = BookingContract::initialize();
    let property_id = "PROP1".to_string();

    let id0 = client
        .create_booking(
            property_id.clone(),
            "USER1".to_string(),
            1704067200,
            1704153600,
            100,
            0,
        )
        .unwrap();
    let id1 = client
        .create_booking(
            property_id.clone(),
            "USER2".to_string(),
            1704153600,
            1704240000,
            200,
            0,
        )
        .unwrap();
    client.update_status(id0, BookingStatus::Confirmed).unwrap();
    client.set_escrow_id(id0, "ESCROW123".to_string()).unwrap();
    client.cancel_booking(id1, &"USER2".to_string()).unwrap();

    let listed = client.get_property_bookings(&property_id);
    assert_eq!(listed.len(), 2);
    for b in listed.iter() {
        let global = client.get_booking(b.id).unwrap();
        assert_eq!(b.id, global.id);
        assert_eq!(b.property_id, global.property_id);
        assert_eq!(b.user_id, global.user_id);
        assert_eq!(b.start_date, global.start_date);
        assert_eq!(b.end_date, global.end_date);
        assert_eq!(b.total_price, global.total_price);
        assert_eq!(b.status, global.status);
        assert_eq!(b.escrow_id, global.escrow_id);
    }
    assert_eq!(listed[0].status, BookingStatus::Confirmed);
    assert_eq!(listed[0].escrow_id, Some("ESCROW123".to_string()));
    assert_eq!(listed[1].status, BookingStatus::Cancelled);
}

#[test]
fn test_terminal_statuses_reject_all_transitions() {
    // Completed and Cancelled are terminal: every requested change out of
    // them fails, and cancellation of a terminal booking is rejected too.
    let mut client = BookingContract::initialize();
    let user_id = "USER1".to_string();

    let id0 = client
        .create_booking("PROP1".to_string(), user_id.clone(), 100, 200, 10, 0)
        .unwrap();
    client.update_status(id0, BookingStatus::Confirmed).unwrap();
    client.update_status(id0, BookingStatus::Completed).unwrap();
    for target in [
        BookingStatus::Pending,
        BookingStatus::Confirmed,
        BookingStatus::Completed,
        BookingStatus::Cancelled,
    ] {
        let result = client.update_status(id0, target);
        assert_eq!(result.unwrap_err(), BookingError::InvalidTransition);
    }
    let result = client.cancel_booking(id0, &user_id);
    assert_eq!(result.unwrap_err(), BookingError::InvalidStatus);

    let id1 = client
        .create_booking("PROP1".to_string(), user_id.clone(), 200, 300, 10, 0)
        .unwrap();
    client.cancel_booking(id1, &user_id).unwrap();
    let result = client.cancel_booking(id1, &user_id);
    assert_eq!(result.unwrap_err(), BookingError::InvalidStatus);
}

#[test]
fn test_get_property_bookings_empty() {
    // A property without bookings yields an empty listing, not an error.
    let client = BookingContract::initialize();
    let bookings = client.get_property_bookings(&"PROP1".to_string());
    assert!(bookings.is_empty());
}

#[test]
fn test_update_status_not_found() {
    let mut client = BookingContract::initialize();
    let result = client.update_status(7, BookingStatus::Confirmed);
    assert_eq!(result.unwrap_err(), BookingError::NotFound);
}

#[test]
fn test_set_escrow_id_not_found() {
    let mut client = BookingContract::initialize();
    let result = client.set_escrow_id(7, "ESCROW123".to_string());
    assert_eq!(result.unwrap_err(), BookingError::NotFound);
}

#[test]
fn test_cancel_booking_not_found() {
    let mut client = BookingContract::initialize();
    let result = client.cancel_booking(7, &"USER1".to_string());
    assert_eq!(result.unwrap_err(), BookingError::NotFound);
}
