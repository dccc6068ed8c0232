use tow_dispatch::tow_truck::TowTruck;
use tow_dispatch::utils::{
    digest_matches, generate_session_token, hash_password, hex_string, token_from_indices,
    verify_password,
};

#[test]
fn hash_of_password() {
    assert_eq!(
        hash_password("password").unwrap(),
        "5baa61e4c9b93f3f0682250b6cf8331b7ee68fd8"
    );
}

#[test]
fn hash_of_empty_text() {
    assert_eq!(hash_password("").unwrap(), "da39a3ee5e6b4b0d3255bfef95601890afd80709");
}

#[test]
fn verify_accepts_right_password() {
    let stored = hash_password("hunter2").unwrap();
    assert_eq!(verify_password(&stored, "hunter2").unwrap(), true);
}

#[test]
fn verify_refuses_wrong_password() {
    let stored = hash_password("hunter2").unwrap();
    assert_eq!(verify_password(&stored, "hunter3").unwrap(), false);
    assert_eq!(verify_password("hunter2", "hunter2").unwrap(), false);
}

#[test]
fn hex_two_digits_a_byte() {
    assert_eq!(hex_string(&vec![0x00, 0x0f, 0xab, 0xff, 0x10]), "000fabff10");
    assert_eq!(hex_string(&vec![]), "");
}

#[test]
fn digest_match_is_exact() {
    assert!(digest_matches("0aff", &vec![0x0a, 0xff]));
    assert!(!digest_matches("0AFF", &vec![0x0a, 0xff]));
    assert!(!digest_matches("0aff0", &vec![0x0a, 0xff]));
}

#[test]
fn token_letters_from_indices() {
    assert_eq!(token_from_indices(&vec![0, 25, 26, 51, 52, 61]), "AZaz09");
}

#[test]
fn session_token_shape() {
    let token = generate_session_token();
    assert_eq!(token.chars().count(), 30);
    assert!(token.chars().all(|c| c.is_ascii_alphanumeric()));
}

#[test]
fn tow_truck_fields() {
    let t = TowTruck {
        id: 1,
        driver_id: 2,
        driver_username: Some("driver".to_string()),
        status: true,
        area_id: 3,
        node_id: 4,
    };
    let u = t.clone();
    assert_eq!(u.node_id, 4);
    assert_eq!(u.driver_username, Some("driver".to_string()));
}
