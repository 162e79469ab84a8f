use joxide::text::{compare, is_number, Order};

fn chars(text: &str) -> Vec<char> {
    text.chars().collect()
}

#[test]
fn compare_orders_texts_by_their_characters() {
    assert_eq!(compare("", ""), Order::Equal);
    assert_eq!(compare("abc", "abc"), Order::Equal);
    assert_eq!(compare("", "a"), Order::Less);
    assert_eq!(compare("a", ""), Order::Greater);
    assert_eq!(compare("a", "b"), Order::Less);
    assert_eq!(compare("b", "a"), Order::Greater);
    assert_eq!(compare("ab", "abc"), Order::Less);
    assert_eq!(compare("abd", "abc"), Order::Greater);
    assert_eq!(compare("Z", "a"), Order::Less);
    assert_eq!(compare("z", "é"), Order::Less);
    assert_eq!(compare("\u{ffff}", "\u{10000}"), Order::Less);
}

#[test]
fn compare_agrees_with_the_order_of_str() {
    let texts = ["", "a", "A", "ab", "b", "é", "\u{ffff}", "\u{1f600}", "a\u{0}", "~"];
    for a in texts {
        for b in texts {
            let expected = match a.cmp(b) {
                std::cmp::Ordering::Less => Order::Less,
                std::cmp::Ordering::Equal => Order::Equal,
                std::cmp::Ordering::Greater => Order::Greater,
            };
            assert_eq!(compare(a, b), expected, "{:?} {:?}", a, b);
        }
    }
}

#[test]
fn is_number_agrees_with_the_reading_of_floats() {
    for text in [
        "", "0", "-0", "+0", "1", "12.5", "1.", ".5", ".", "-", "+", "e", "e5", "1e", "1e5",
        "1E5", "1e+5", "1e-5", "1e+", "1e5.", "1.5.5", "inf", "Inf", "INF", "infinity", "+infinity",
        "-inf", "infinit", "nan", "NaN", "-nan", "nana", "n", "i", "0x1", "1_0", " 1", "1 ", "٣",
        "1e٣", "--1", "+-1", "1e--1", "..", "1..", "-.e1", ".e1", "5.e1", "-5.e-1",
    ] {
        assert_eq!(
            is_number(&chars(text)),
            text.parse::<f64>().is_ok(),
            "{:?}",
            text
        );
    }
}
