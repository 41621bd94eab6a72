use protohackers::mob_middle::change_coins_in_message;

#[test]
fn test_change_coins() {
    assert_eq!(
        change_coins_in_message("7F1u3wSD5RbOHQmupo9nx4TnhQ".to_string()),
        "7YWHMfk9JZe0LM0g1ZauHuiSxhI".to_string()
    );

    assert_eq!(
        change_coins_in_message(" 7F1u3wSD5RbOHQmupo9nx4TnhQ".to_string()),
        " 7YWHMfk9JZe0LM0g1ZauHuiSxhI".to_string()
    );

    assert_eq!(
        change_coins_in_message("7F1u3wSD5RbOHQmupo9nx4TnhQ ".to_string()),
        "7YWHMfk9JZe0LM0g1ZauHuiSxhI ".to_string()
    );

    assert_eq!(
        change_coins_in_message(" 7F1u3wSD5RbOHQmupo9nx4TnhQ ".to_string()),
        " 7YWHMfk9JZe0LM0g1ZauHuiSxhI ".to_string()
    );

    assert_eq!(
        change_coins_in_message("send to 7F1u3wSD5RbOHQmupo9nx4TnhQ".to_string()),
        "send to 7YWHMfk9JZe0LM0g1ZauHuiSxhI".to_string()
    );

    assert_eq!(
        change_coins_in_message("Please pay the ticket price of 15 Boguscoins to one of these addresses: 7YWHMfk9JZe0LM0g1ZauHuiSxhI 7YWHMfk9JZe0LMsljfsl180SxhI 7YWHMfk9JZe0LM0g1ZauHuiSxhI".to_string()),
        "Please pay the ticket price of 15 Boguscoins to one of these addresses: 7YWHMfk9JZe0LM0g1ZauHuiSxhI 7YWHMfk9JZe0LM0g1ZauHuiSxhI 7YWHMfk9JZe0LM0g1ZauHuiSxhI".to_string()
    );

    assert_eq!(
        change_coins_in_message(
            "Send product 7YWHMfk9JZe0LM0g1ZauHuiSxhI-uAlVQEafFrMMFNQVY5kC7ENf8VT-1234 to me"
                .to_string()
        ),
        "Send product 7YWHMfk9JZe0LM0g1ZauHuiSxhI-uAlVQEafFrMMFNQVY5kC7ENf8VT-1234 to me"
            .to_string()
    );

    assert_eq!(
        change_coins_in_message(
            "Please send the payment of 750 Boguscoins to 7P6dFDNGsSJY9fbhQUGlrzSs4bn7benGM\n"
                .to_string()
        ),
        "Please send the payment of 750 Boguscoins to 7YWHMfk9JZe0LM0g1ZauHuiSxhI\n"
            .to_string()
    );
}

#[test]
fn coins_keep_empty_pieces_and_short_addresses() {
    assert_eq!(change_coins_in_message(String::new()), "");
    assert_eq!(change_coins_in_message("a  b".to_string()), "a  b");
    // 24 characters after the 7: too short to be an address.
    assert_eq!(
        change_coins_in_message("7abcdefghijklmnopqrstuvwx".to_string()),
        "7abcdefghijklmnopqrstuvwx"
    );
    assert_eq!(
        change_coins_in_message("x 7abcdefghijklmnopqrstuvwxy y".to_string()),
        "x 7YWHMfk9JZe0LM0g1ZauHuiSxhI y"
    );
}
