use lox_rs_ast::chars::{char_is_identifier_part, char_is_whitespace, chars_of, string_of};
use lox_rs_ast::number::{
    digits_to_bits, negate, number_less, number_less_equal, numbers_equal,
};

fn bits_of(digits: &str) -> u64 {
    let chars: Vec<char> = digits.chars().collect();
    digits_to_bits(&chars, 0, chars.len())
}

fn agrees(digits: &str) {
    let expected: f64 = digits.parse().unwrap();
    assert_eq!(bits_of(digits), expected.to_bits(), "for {}", digits);
}

#[test]
fn small_numbers() {
    assert_eq!(bits_of("0"), 0);
    assert_eq!(bits_of("1"), 0x3ff0_0000_0000_0000);
    assert_eq!(bits_of("2"), 0x4000_0000_0000_0000);
    assert_eq!(bits_of("3"), 0x4008_0000_0000_0000);
    assert_eq!(bits_of("123"), 123.0f64.to_bits());
    assert_eq!(bits_of("000"), 0);
}

#[test]
fn numbers_around_two_to_the_53() {
    agrees("9007199254740991");
    agrees("9007199254740992");
    agrees("9007199254740993");
    agrees("9007199254740994");
    agrees("9007199254740995");
    agrees("9007199254740996");
    agrees("9007199254740997");
    agrees("18014398509481985");
    agrees("18014398509481986");
    agrees("18014398509481987");
}

#[test]
fn long_numbers() {
    agrees("18446744073709551615");
    agrees("18446744073709551616");
    agrees("340282366920938463463374607431768211455");
    agrees("340282366920938463463374607431768211456");
    agrees("123456789012345678901234567890123456789012345678901234567890");
    agrees("100000000000000000000000");
    agrees("99999999999999999999999");
}

#[test]
fn every_length_of_digits() {
    let mut nines = String::new();
    let mut mixed = String::new();
    for i in 0..400 {
        nines.push('9');
        mixed.push(char::from(b'0' + ((i * 7 + 3) % 10) as u8));
        agrees(&nines);
        agrees(&mixed);
    }
}

#[test]
fn the_largest_numbers() {
    let max = "179769313486231570814527423731704356798070567525844996598917476803157260780028538760589558632766878171540458953514382464234321326889464182768467546703537516986049910576551282076245490090389328944075868508455133942304583236903222948165808559332123348274797826204144723168738177180919299881250404026184124858368";
    agrees(max);
    // Halfway between the largest double and two to the power 1024: the tie goes up.
    let tie = "179769313486231580793728971405303415079934132710037826936173778980444968292764750946649017977587207096330286416692887910946555547851940402630657488671505820681908902000708383676273854845817711531764475730270069855571366959622842914819860834936475292719074168444365510704342711559699508093042880177904174497792";
    agrees(tie);
    let below = "179769313486231580793728971405303415079934132710037826936173778980444968292764750946649017977587207096330286416692887910946555547851940402630657488671505820681908902000708383676273854845817711531764475730270069855571366959622842914819860834936475292719074168444365510704342711559699508093042880177904174497791";
    agrees(below);
    assert_eq!(bits_of(tie), f64::INFINITY.to_bits());
    assert_eq!(bits_of(below), f64::MAX.to_bits());
    let mut huge = String::from("1");
    for _ in 0..5000 {
        huge.push('0');
    }
    assert_eq!(bits_of(&huge), f64::INFINITY.to_bits());
}

#[test]
fn powers_of_two_and_their_neighbours() {
    let mut power: Vec<u8> = vec![1];
    for _ in 0..300 {
        // Doubles the decimal number in `power`, lowest digit first.
        let mut carry = 0;
        for digit in power.iter_mut() {
            let twice = *digit * 2 + carry;
            *digit = twice % 10;
            carry = twice / 10;
        }
        if carry > 0 {
            power.push(carry);
        }
        let text: String = power.iter().rev().map(|d| char::from(b'0' + d)).collect();
        agrees(&text);
        let mut odd = text.clone();
        odd.pop();
        odd.push(char::from(b'0' + power[0] + 1));
        agrees(&odd);
    }
}

#[test]
fn a_part_of_the_text() {
    let chars: Vec<char> = "ab42cd".chars().collect();
    assert_eq!(digits_to_bits(&chars, 2, 4), 42.0f64.to_bits());
    assert_eq!(digits_to_bits(&chars, 2, 3), 4.0f64.to_bits());
    assert_eq!(digits_to_bits(&chars, 3, 3), 0);
}

fn samples() -> Vec<f64> {
    vec![
        0.0,
        -0.0,
        1.0,
        -1.0,
        0.5,
        -0.5,
        2.0,
        1e300,
        -1e300,
        f64::MIN_POSITIVE,
        -f64::MIN_POSITIVE,
        5e-324,
        -5e-324,
        f64::MAX,
        f64::MIN,
        f64::INFINITY,
        f64::NEG_INFINITY,
        f64::NAN,
        -f64::NAN,
        f64::from_bits(0x7ff0_0000_0000_0001),
        f64::from_bits(0xfff0_0000_0000_0001),
    ]
}

#[test]
fn comparison_is_that_of_doubles() {
    for a in samples() {
        for b in samples() {
            let (x, y) = (a.to_bits(), b.to_bits());
            assert_eq!(numbers_equal(x, y), a == b, "{} == {}", a, b);
            assert_eq!(number_less(x, y), a < b, "{} < {}", a, b);
            assert_eq!(number_less_equal(x, y), a <= b, "{} <= {}", a, b);
        }
    }
}

#[test]
fn negation_is_that_of_doubles() {
    for a in samples() {
        assert_eq!(negate(a.to_bits()), (-a).to_bits());
    }
}

#[test]
fn whitespace_is_that_of_unicode() {
    for code in 0..=0x10ffffu32 {
        if let Some(c) = char::from_u32(code) {
            assert_eq!(char_is_whitespace(c), c.is_whitespace(), "U+{:04X}", code);
        }
    }
}

#[test]
fn identifier_characters() {
    for code in 0..=0x10ffffu32 {
        if let Some(c) = char::from_u32(code) {
            assert_eq!(char_is_identifier_part(c), c.is_alphanumeric() || c == '_', "U+{:04X}", code);
        }
    }
}

#[test]
fn text_and_characters() {
    assert_eq!(chars_of("h\u{e9}y"), vec!['h', '\u{e9}', 'y']);
    assert_eq!(chars_of(""), Vec::<char>::new());
    let chars = chars_of("hello");
    assert_eq!(string_of(&chars, 1, 3), "el");
    assert_eq!(string_of(&chars, 2, 2), "");
}
