use rust_examples::closures::apply;
use rust_examples::closures::call_closure_with_ten;
use rust_examples::closures::call_it;
use rust_examples::closures::each;
use rust_examples::closures::safe_get;
use rust_examples::closures::ten_times;
use rust_examples::decorator::IndentedMessage;
use rust_examples::decorator::Message;
use rust_examples::decorator::Printable;
use rust_examples::decorator::UnderlinedMessage;

#[test]
fn underlined_message() {
    let message = Message { message: "Underlined message.".to_string() };
    let underlined = UnderlinedMessage { decorated: message };
    assert_eq!(underlined.print(), "Underlined message.\n===================".to_string());
}

#[test]
fn indented_message() {
    let message = Message { message: "Indented\nmessage.".to_string() };
    let indented = IndentedMessage { decorated: message };
    assert_eq!(indented.print(), "    Indented\n    message.".to_string());
}

#[test]
fn stacked_decorators() {
    let message = Message { message: "hi".to_string() };
    let stacked = IndentedMessage { decorated: UnderlinedMessage { decorated: message } };
    assert_eq!(stacked.print(), "    hi\n    ==".to_string());
}

#[test]
fn closure_helpers() {
    assert_eq!(apply(4, |x| x * x), 16);
    call_closure_with_ten(|arg| assert_eq!(arg, 10));
    call_it(|n| assert_eq!(n, 10));
    each(&[1, 2, 3], |x| assert!(*x >= 1 && *x <= 3));
    ten_times(|i| assert!((0..10).contains(&i)));
    let mapped = rust_examples::closures::map(&[1i32, 2, 3], |x| x + 1);
    assert_eq!(mapped, vec![2, 3, 4]);
    assert_eq!(safe_get(Some("contents"), "default"), "contents");
    assert_eq!(safe_get(None, "default"), "default");
}
