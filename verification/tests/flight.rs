use flights::flight::{Flight, FlightError, FlightInfo, FlightRequest, FlightResponse};

#[test]
fn should_get_destination_not_found_for() {
    // Given
    let from_to = vec![("SFO".to_string(), "IND".to_string())];
    let flight = Flight::new("SFO".to_string(), "EWR".to_string(), from_to);

    // When
    let path = flight.path();

    // Then
    assert!(path.is_err());
    let path = path.err().unwrap();
    assert_eq!(FlightError::DestinationNotFoundFor("IND".to_string()), path);
}

#[test]
fn should_get_invalid_leg() {
    // Given
    let legs = vec![
        vec!["SFO".to_string(), "EWR".to_string(), "SFO".to_string(), "EWR".to_string()],
    ];

    // When
    let flight = Flight::try_from(&legs);

    // Then
    assert!(flight.is_err());
    assert_eq!(FlightError::InvalidLeg(legs[0].clone()), flight.err().unwrap());
}

#[test]
fn should_get_invalid_airport_code() {
    // Given
    let legs = vec![
        vec!["SFO".to_string(), "".to_string()],
    ];

    // When
    let flight = Flight::try_from(&legs);

    // Then
    assert!(flight.is_err());
    assert_eq!(FlightError::InvalidAirportCode("".to_string()), flight.err().unwrap());
}

#[test]
fn should_get_destination_not_found() {
    // Given
    let legs = vec![
        vec!["A".to_string(), "B".to_string()],
        vec!["B".to_string(), "C".to_string()],
        vec!["B".to_string(), "C".to_string()],
    ];

    // When
    let flight = Flight::try_from(&legs);

    // Then
    assert!(flight.is_err());
    assert_eq!(FlightError::DestinationNotFound, flight.err().unwrap());
}

#[test]
fn should_not_get_a_flight() {
    // Given
    let legs = Vec::new();

    // When
    let flight = Flight::try_from(&legs);

    // Then
    assert!(flight.is_err());
    assert_eq!(FlightError::SourceNotFound, flight.err().unwrap());
}

#[test]
fn should_get_a_flight_with_one_leg() {
    // Given
    let legs = vec![
        vec!["SFO".to_string(), "EWR".to_string()],
    ];

    // When
    let flight = Flight::try_from(&legs);

    // Then
    assert!(flight.is_ok());
    let flight = flight.ok().unwrap();
    assert_eq!("SFO".to_string(), flight.source());
    assert_eq!("EWR".to_string(), flight.destination());

    let path = flight.path();
    assert!(path.is_ok());
    let path = path.ok().unwrap();
    assert_eq!(vec!["SFO".to_string(), "EWR".to_string()], path);
}

#[test]
fn should_get_a_flight_with_two_legs() {
    // Given
    let legs = vec![
        vec!["SFO".to_string(), "EWR".to_string()],
        vec!["EWR".to_string(), "IND".to_string()],
    ];

    // When
    let flight = Flight::try_from(&legs);

    // Then
    assert!(flight.is_ok());
    let flight = flight.ok().unwrap();
    assert_eq!("SFO".to_string(), flight.source());
    assert_eq!("IND".to_string(), flight.destination());

    let path = flight.path();
    assert!(path.is_ok());
    let path = path.ok().unwrap();
    assert_eq!(vec!["SFO".to_string(), "EWR".to_string(), "IND".to_string()], path);
}

#[test]
fn should_get_ambiguous_endpoints_for_disjoint_chains() {
    let legs = vec![
        vec!["AAA".to_string(), "BBB".to_string()],
        vec!["CCC".to_string(), "DDD".to_string()],
    ];

    let flight = Flight::try_from(&legs);

    assert!(flight.is_err());
    assert_eq!(FlightError::AmbiguousEndpoints, flight.err().unwrap());
}

#[test]
fn should_get_cycle_detected_for_a_looping_mapping() {
    let from_to = vec![
        ("AAA".to_string(), "BBB".to_string()),
        ("BBB".to_string(), "AAA".to_string()),
    ];
    let flight = Flight::new("AAA".to_string(), "ZZZ".to_string(), from_to);

    let path = flight.path();

    assert!(path.is_err());
    assert_eq!(FlightError::CycleDetected, path.err().unwrap());
}

#[test]
fn should_reject_an_empty_origin_code() {
    let legs = vec![
        vec!["".to_string(), "EWR".to_string()],
    ];

    let flight = Flight::try_from(&legs);

    assert!(flight.is_err());
    assert_eq!(FlightError::InvalidAirportCode("".to_string()), flight.err().unwrap());
}

#[test]
fn should_walk_a_three_leg_chain() {
    let legs = vec![
        vec!["SFO".to_string(), "EWR".to_string()],
        vec!["EWR".to_string(), "IND".to_string()],
        vec!["IND".to_string(), "JFK".to_string()],
    ];

    let flight = Flight::try_from(&legs).ok().unwrap();

    assert_eq!("SFO".to_string(), flight.source());
    assert_eq!("JFK".to_string(), flight.destination());
    let path = flight.path().ok().unwrap();
    assert_eq!(
        vec!["SFO".to_string(), "EWR".to_string(), "IND".to_string(), "JFK".to_string()],
        path,
    );
}

#[test]
fn should_assemble_a_response_without_a_path() {
    let req = FlightRequest {
        legs: vec![vec!["SFO".to_string(), "EWR".to_string()]],
        full_path: false,
    };

    let resp = FlightResponse::try_from(&req);

    assert!(resp.is_ok());
    match resp.ok().unwrap() {
        FlightResponse::Success { source, destination, path } => {
            assert_eq!("SFO".to_string(), source);
            assert_eq!("EWR".to_string(), destination);
            assert!(path.is_none());
        },
        FlightResponse::Error { message } => panic!("unexpected error: {}", message),
    }
}

#[test]
fn should_assemble_a_response_with_a_path() {
    let req = FlightRequest {
        legs: vec![
            vec!["SFO".to_string(), "EWR".to_string()],
            vec!["EWR".to_string(), "IND".to_string()],
        ],
        full_path: true,
    };

    let resp = FlightResponse::try_from(&req);

    assert!(resp.is_ok());
    match resp.ok().unwrap() {
        FlightResponse::Success { source, destination, path } => {
            assert_eq!("SFO".to_string(), source);
            assert_eq!("IND".to_string(), destination);
            assert_eq!(
                Some(vec!["SFO".to_string(), "EWR".to_string(), "IND".to_string()]),
                path,
            );
        },
        FlightResponse::Error { message } => panic!("unexpected error: {}", message),
    }
}

#[test]
fn should_hand_back_the_builder_failure_when_assembling() {
    let req = FlightRequest { legs: Vec::new(), full_path: false };

    let resp = FlightResponse::try_from(&req);

    assert!(resp.is_err());
    assert_eq!(FlightError::SourceNotFound, resp.err().unwrap());
}

#[test]
fn should_hand_back_the_walker_failure_when_assembling() {
    // The toggling leaves SFO as source and IND as destination, but the
    // duplicated origin LAX makes its earlier next hop overridden away, so
    // the walk breaks at EWR.
    let req = FlightRequest {
        legs: vec![
            vec!["SFO".to_string(), "EWR".to_string()],
            vec!["LAX".to_string(), "EWR".to_string()],
            vec!["LAX".to_string(), "IND".to_string()],
        ],
        full_path: true,
    };

    let resp = FlightResponse::try_from(&req);

    assert!(resp.is_err());
    assert_eq!(
        FlightError::DestinationNotFoundFor("EWR".to_string()),
        resp.err().unwrap(),
    );
}

#[test]
fn should_not_walk_when_the_path_is_not_requested() {
    // The next-hop mapping loops, but no path was asked for, so the
    // assembler never walks it and still succeeds.
    let req = FlightRequest {
        legs: vec![
            vec!["AAA".to_string(), "BBB".to_string()],
            vec!["BBB".to_string(), "CCC".to_string()],
            vec!["BBB".to_string(), "DDD".to_string()],
            vec!["DDD".to_string(), "BBB".to_string()],
        ],
        full_path: false,
    };

    let resp = FlightResponse::try_from(&req);

    assert!(resp.is_ok());
    match resp.ok().unwrap() {
        FlightResponse::Success { source, destination, path } => {
            assert_eq!("AAA".to_string(), source);
            assert_eq!("CCC".to_string(), destination);
            assert!(path.is_none());
        },
        FlightResponse::Error { message } => panic!("unexpected error: {}", message),
    }
}

#[test]
fn should_render_messages_by_failure_kind() {
    assert_eq!("source not found".to_string(), FlightError::SourceNotFound.message());
    assert_eq!("destination not found".to_string(), FlightError::DestinationNotFound.message());
    assert_eq!(
        "no destination found for IND".to_string(),
        FlightError::DestinationNotFoundFor("IND".to_string()).message(),
    );
    assert_eq!(
        "invalid airport code: a code must not be empty".to_string(),
        FlightError::InvalidAirportCode("".to_string()).message(),
    );
    assert_eq!(
        "invalid leg: expected exactly two airport codes".to_string(),
        FlightError::InvalidLeg(vec!["SFO".to_string()]).message(),
    );
    assert_eq!(
        "ambiguous itinerary: more than one source or destination".to_string(),
        FlightError::AmbiguousEndpoints.message(),
    );
    assert_eq!(
        "cycle detected: the legs do not reach the destination".to_string(),
        FlightError::CycleDetected.message(),
    );
}
