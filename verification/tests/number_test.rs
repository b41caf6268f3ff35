use apisql::number::{
    finite, float_equal, float_less, float_of_u64, parse_float, NEGATIVE_INFINITY,
    POSITIVE_INFINITY,
};
use apisql::JsonNumber;

fn bits_of(text: &str) -> Option<u64> {
    let chars: Vec<char> = text.chars().collect();
    parse_float(&chars)
}

#[test]
fn whole_numbers_round_like_the_machine() {
    let mut samples: Vec<u64> = vec![
        0,
        1,
        2,
        3,
        10,
        255,
        4503599627370495,
        4503599627370496,
        9007199254740991,
        9007199254740992,
        9007199254740993,
        9007199254740994,
        9007199254740995,
        9007199254740996,
        9007199254740997,
        18014398509481983,
        18014398509481984,
        18014398509481985,
        18014398509481986,
        18014398509481987,
        u64::MAX,
        u64::MAX - 1,
        u64::MAX - 1023,
        u64::MAX - 1024,
        u64::MAX - 1025,
        u64::MAX - 2047,
        u64::MAX - 2048,
        1 << 63,
        (1 << 63) + 1024,
        (1 << 63) + 1025,
        (1 << 63) + 3072,
    ];
    let mut x: u64 = 0x9E3779B97F4A7C15;
    for _ in 0..2000 {
        x ^= x << 13;
        x ^= x >> 7;
        x ^= x << 17;
        samples.push(x);
        samples.push(x >> (x % 64));
    }
    for n in samples {
        assert_eq!(float_of_u64(n), (n as f64).to_bits(), "for {}", n);
    }
}

#[test]
fn json_numbers_convert_like_the_machine() {
    for i in [-1i64, -2, -3, -9007199254740993, -9007199254740995, i64::MIN, i64::MIN + 1, -255] {
        assert_eq!(JsonNumber::NegInt(i).to_float_bits(), (i as f64).to_bits(), "for {}", i);
    }
    assert_eq!(JsonNumber::NegInt(7).to_float_bits(), 7f64.to_bits());
    assert_eq!(JsonNumber::PosInt(7).to_float_bits(), 7f64.to_bits());
    assert_eq!(JsonNumber::Float(2.5f64.to_bits()).to_float_bits(), 2.5f64.to_bits());
}

#[test]
fn doubles_order_like_the_machine() {
    let values = [
        0.0f64,
        -0.0,
        1.0,
        -1.0,
        2.5,
        -2.5,
        f64::MIN_POSITIVE,
        -f64::MIN_POSITIVE,
        5e-324,
        -5e-324,
        f64::MAX,
        f64::MIN,
        1e300,
        -1e300,
        3.0,
        9007199254740992.0,
    ];
    for a in values {
        for b in values {
            assert_eq!(float_less(a.to_bits(), b.to_bits()), a < b, "{} < {}", a, b);
            assert_eq!(float_equal(a.to_bits(), b.to_bits()), a == b, "{} == {}", a, b);
        }
    }
}

#[test]
fn finiteness_is_read_from_the_exponent() {
    for x in [0.0f64, -0.0, 1.0, f64::MAX, f64::MIN, 5e-324] {
        assert!(finite(x.to_bits()));
    }
    assert!(!finite(f64::INFINITY.to_bits()));
    assert!(!finite(f64::NEG_INFINITY.to_bits()));
    assert!(!finite(f64::NAN.to_bits()));
    assert!(!finite((-f64::NAN).to_bits()));
}

#[test]
fn number_texts_are_read_like_the_machine_reads_them() {
    let texts = [
        "0", "-0", "+0", "5", "+5", "-5", "5.", ".5", "-.5", "0.1", "3.14", "1e5", "1E5", "1e+5",
        "1e-5", "1.5e300", "1e999", "-1e999", "1e-999", "4.9e-324", "2.4703282292062327e-324",
        "2.4703282292062328e-324", "1.7976931348623157e308", "1.7976931348623159e308",
        "9007199254740993", "9007199254740992.5", "0.30000000000000004", "123456789012345678901234567890",
        "0000123", "00.5e0003", "1e0", "1e-0", "inf", "-inf", "+inf", "infinity", "-Infinity",
        "+INFINITY", "INF", "nan", "NaN", "-nan", "+NAN", "", "+", "-", ".", "e5", "1e", "1e+",
        "1.2.3", "1 ", " 1", "1_000", "0x10", "1f", "--1", "+-1", "infinit", "in", "na", "1e5.0",
        "١", "5e", ".e1", "1..", "-.", "+.e1", "1e1e1",
    ];
    for text in texts {
        let expected = text.parse::<f64>().ok().map(|x| x.to_bits());
        assert_eq!(bits_of(text), expected, "for {:?}", text);
    }
}

#[test]
fn infinities_have_their_patterns() {
    assert_eq!(bits_of("inf"), Some(POSITIVE_INFINITY));
    assert_eq!(bits_of("-infinity"), Some(NEGATIVE_INFINITY));
    assert_eq!(POSITIVE_INFINITY, f64::INFINITY.to_bits());
    assert_eq!(NEGATIVE_INFINITY, f64::NEG_INFINITY.to_bits());
}

#[test]
fn json_numbers_are_equal_within_their_kind_only() {
    assert!(JsonNumber::PosInt(5).equals(&JsonNumber::PosInt(5)));
    assert!(!JsonNumber::PosInt(5).equals(&JsonNumber::PosInt(6)));
    assert!(!JsonNumber::PosInt(5).equals(&JsonNumber::Float(5f64.to_bits())));
    assert!(JsonNumber::NegInt(-5).equals(&JsonNumber::NegInt(-5)));
    assert!(!JsonNumber::NegInt(-5).equals(&JsonNumber::Float((-5f64).to_bits())));
    assert!(JsonNumber::Float(0f64.to_bits()).equals(&JsonNumber::Float((-0f64).to_bits())));
    assert!(!JsonNumber::Float(1f64.to_bits()).equals(&JsonNumber::Float(2f64.to_bits())));
    assert!(JsonNumber::PosInt(5).less_than(&JsonNumber::Float(5.5f64.to_bits())));
    assert!(!JsonNumber::PosInt(6).less_than(&JsonNumber::Float(5.5f64.to_bits())));
    assert!(JsonNumber::NegInt(-6).less_than(&JsonNumber::PosInt(0)));
}

struct Dice(u64);

impl Dice {
    fn roll(&mut self, bound: u64) -> u64 {
        self.0 ^= self.0 << 13;
        self.0 ^= self.0 >> 7;
        self.0 ^= self.0 << 17;
        self.0 % bound
    }

    fn digits(&mut self, count: u64) -> String {
        (0..count).map(|_| char::from(b'0' + self.roll(10) as u8)).collect()
    }
}

#[test]
fn random_numerals_are_read_like_the_machine_reads_them() {
    let mut dice = Dice(0x2545F4914F6CDD1D);
    for round in 0..3000 {
        let mut text = String::new();
        match dice.roll(4) {
            0 => text.push('-'),
            1 => text.push('+'),
            _ => {}
        }
        let whole = dice.roll(25);
        text.push_str(&dice.digits(whole));
        let fraction = dice.roll(4) == 0;
        if fraction || whole == 0 {
            text.push('.');
            let places = dice.roll(25) + if whole == 0 { 1 } else { 0 };
            text.push_str(&dice.digits(places));
        }
        if dice.roll(2) == 0 {
            text.push(if dice.roll(2) == 0 { 'e' } else { 'E' });
            match dice.roll(3) {
                0 => text.push('-'),
                1 => text.push('+'),
                _ => {}
            }
            let span = if round % 3 == 0 { 400 } else { 30 };
            text.push_str(&dice.roll(span).to_string());
        }
        let expected = text.parse::<f64>().ok().map(|x| x.to_bits());
        assert!(expected.is_some(), "not a numeral: {:?}", text);
        assert_eq!(bits_of(&text), expected, "for {:?}", text);
    }
}

#[test]
fn doubles_come_back_from_their_shortest_and_longest_numerals() {
    let mut dice = Dice(0x9E3779B97F4A7C15);
    for _ in 0..1500 {
        let bits = (dice.roll(u64::MAX) << 1) ^ dice.roll(u64::MAX);
        let x = f64::from_bits(bits);
        if !x.is_finite() {
            continue;
        }
        assert_eq!(bits_of(&format!("{:e}", x)), Some(bits), "for {:e}", x);
        assert_eq!(bits_of(&format!("{:.40e}", x)), Some(bits), "for {:.40e}", x);
    }
    for bits in [1u64, 2, 3, 0x000F_FFFF_FFFF_FFFF, 0x0010_0000_0000_0000, 0x7FEF_FFFF_FFFF_FFFF] {
        let x = f64::from_bits(bits);
        assert_eq!(bits_of(&format!("{:e}", x)), Some(bits));
        assert_eq!(bits_of(&format!("{:.800e}", x)), Some(bits));
        assert_eq!(bits_of(&format!("{:.1100}", x)), Some(bits));
    }
}

#[test]
fn ties_and_edges_round_like_the_machine() {
    let texts = [
        "9007199254740993",
        "9007199254740995",
        "9007199254740993.0000000000000000000000000000000000000001",
        "9007199254740992.9999999999999999999999999999999999999999",
        "18014398509481986",
        "18014398509481990",
        "179769313486231580793728971405303415079934132710037826936173778980444968292764750946649017977587207096330286416692887910946555547851940402630657488671505820681908902000708383676273854845817711531764475730270069855571366959622842914819860834936475292719074168444365510704342711559699508093042880177904174497791",
        "179769313486231580793728971405303415079934132710037826936173778980444968292764750946649017977587207096330286416692887910946555547851940402630657488671505820681908902000708383676273854845817711531764475730270069855571366959622842914819860834936475292719074168444365510704342711559699508093042880177904174497792",
        "1.7976931348623158e308",
        "1.797693134862315807e308",
        "1.797693134862315808e308",
        "2.2250738585072011e-308",
        "2.2250738585072012e-308",
        "2.2250738585072014e-308",
        "4.9406564584124654e-324",
        "2.4703282292062327e-324",
        "2.4703282292062328e-324",
        "2.47032822920623272088284396434110686182529901307162382212792841250337753635104375932649918180817996189898282347722858865463328355177969898199387398005390939063150356595155702263922908583924491051844359318028499365361525003193704576782492193656236698636584807570015857692699037063119282795585513329278343384093519780155312465972635795746227664652728272200563740064854999770965994704540208281662262378573934507363390079677619305775067401763246736009689513405355374585166611342237666786041621596804619144672918403005300575308490487653917113865916462395249126236538818796362393732804238910186723484976682350898633885879256283027559956575244555072551893136908362547791869486679949683240497058210285131854513962138377228261454376934125320985913276672363281251e-324",
        "1e400",
        "1e-400",
        "0.0000000000000000000000000000000000000000000000000000000000000000000000000000000001e82",
        "100000000000000000000000000000000000000000000000000000000000000000000000000000000e-80",
        "1e99999999999999999999999999999999999999",
        "1e-99999999999999999999999999999999999999",
        "0e99999999999999999999999999999999999999",
        "-0e-99999999999999999999999999999999999999",
        "0.000e5",
        "00000000000000000000000000000000000000000000000001",
        "1e0000000000000000000000000000000000000000000000000000000005",
        "1e400000000000000000000000000000000",
        "123456789e-1000000000000000000000000000001",
    ];
    for text in texts {
        let expected = text.parse::<f64>().ok().map(|x| x.to_bits());
        assert!(expected.is_some(), "not a numeral: {:?}", text);
        assert_eq!(bits_of(text), expected, "for {:?}", text);
    }
}
