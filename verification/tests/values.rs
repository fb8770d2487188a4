use zenki::GameRating;
use zenki::ParsePaymentMethodError;
use zenki::PaymentMethod;
use zenki::PurchaseType;
use zenki::i32_to_usize;
use zenki::usize_to_i32;

#[test]
fn payment_method_parses_known_names() {
    assert_eq!(
        PaymentMethod::from_str("credit_card"),
        Ok(PaymentMethod::CreditCard)
    );
    assert_eq!(
        PaymentMethod::from_str("debit_card"),
        Ok(PaymentMethod::DebitCard)
    );
    assert_eq!(PaymentMethod::from_str("paypal"), Ok(PaymentMethod::Paypal));
    assert_eq!(PaymentMethod::from_str("etc"), Ok(PaymentMethod::Etc));
}

#[test]
fn payment_method_rejects_unknown_names() {
    assert_eq!(
        PaymentMethod::from_str("Credit Card"),
        Err(ParsePaymentMethodError)
    );
    assert_eq!(PaymentMethod::from_str(""), Err(ParsePaymentMethodError));
    assert_eq!(
        PaymentMethod::from_str("paypal "),
        Err(ParsePaymentMethodError)
    );
}

#[test]
fn payment_method_labels() {
    assert_eq!(PaymentMethod::CreditCard.label(), "Credit Card");
    assert_eq!(PaymentMethod::DebitCard.label(), "Debit Card");
    assert_eq!(PaymentMethod::Paypal.label(), "PayPal");
    assert_eq!(PaymentMethod::Etc.label(), "etc.");
}

#[test]
fn purchase_type_labels() {
    assert_eq!(PurchaseType::GamePurchase.label(), "Game purchase");
    assert_eq!(PurchaseType::InGamePurchase.label(), "In-game purchase");
    assert_eq!(PurchaseType::Subscriptions.label(), "Subscription");
    assert_eq!(PurchaseType::Dlc.label(), "DLC");
    assert_eq!(PurchaseType::Etc.label(), "etc.");
}

#[test]
fn game_rating_labels() {
    assert_eq!(GameRating::General.label(), "General");
    assert_eq!(GameRating::Mature.label(), "Mature");
    assert_eq!(GameRating::Sensitive.label(), "Sensitive");
}

#[test]
fn id_conversions_round_trip() {
    assert_eq!(usize_to_i32(0), 0);
    assert_eq!(usize_to_i32(41), 41);
    assert_eq!(usize_to_i32(i32::MAX as usize), i32::MAX);
    assert_eq!(i32_to_usize(0), 0);
    assert_eq!(i32_to_usize(41), 41);
    assert_eq!(i32_to_usize(usize_to_i32(1234)), 1234);
}
