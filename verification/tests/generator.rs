use pwstore::generator::generate_strong_password;

#[test]
fn password_length() {
    let length = 12;
    let password = generate_strong_password(length);
    assert_eq!(password.len(), length);
}

#[test]
fn password_contains_lowercase() {
    let password = generate_strong_password(12);
    assert!(password.chars().any(|c| c.is_lowercase()));
}

#[test]
fn password_contains_uppercase() {
    let password = generate_strong_password(12);
    assert!(password.chars().any(|c| c.is_uppercase()));
}

#[test]
fn password_contains_digit() {
    let password = generate_strong_password(12);
    assert!(password.chars().any(|c| c.is_digit(10)));
}

#[test]
fn password_contains_special_character() {
    let password = generate_strong_password(12);
    let special_chars = "!@#$%^&*()_-+=<>?";
    assert!(password.chars().any(|c| special_chars.contains(c)));
}

#[test]
fn passwords_are_random() {
    let password1 = generate_strong_password(12);
    let password2 = generate_strong_password(12);
    assert_ne!(password1, password2);
}

#[test]
fn short_requests_still_cover_every_class() {
    let password = generate_strong_password(2);
    assert_eq!(password.len(), 4);
    assert!(password.chars().any(|c| c.is_lowercase()));
    assert!(password.chars().any(|c| c.is_uppercase()));
    assert!(password.chars().any(|c| c.is_digit(10)));
    let special_chars = "!@#$%^&*()_-+=<>?";
    assert!(password.chars().any(|c| special_chars.contains(c)));
}

#[test]
fn every_character_comes_from_the_classes() {
    let password = generate_strong_password(40);
    assert_eq!(password.len(), 40);
    let special_chars = "!@#$%^&*()_-+=<>?";
    for c in password.chars() {
        assert!(
            c.is_ascii_lowercase()
                || c.is_ascii_uppercase()
                || c.is_ascii_digit()
                || special_chars.contains(c)
        );
    }
}
